//! The board: cells in row-major order, the flag budget and the game's outcome.

use vstd::prelude::*;
use crate::grid::{
    count_neighbors, edge_adjacent, flat, flat_index, in_grid, lemma_flat_bounds, lemma_flat_injective,
    lemma_flat_split, neighbor_count,
};
use crate::placement::{
    drawn_positions, mark_mines, random_draws, set_positions,
    shuffle_prefix,
};

verus! {

#[derive(Clone, Copy, Debug, PartialEq, Eq, Structural)]
pub enum CellState {
    Hidden,
    Revealed,
    Flagged,
}

/// One grid position. `is_mine` and `adjacent_mine_count` are fixed when the board is built.
#[derive(Clone, Copy, Debug, PartialEq, Eq, Structural)]
pub struct Cell {
    pub is_mine: bool,
    pub adjacent_mine_count: u8,
    pub state: CellState,
}

#[derive(Clone, Copy, Debug, PartialEq, Eq, Structural)]
pub enum GameOutcome {
    InProgress,
    Won,
    Lost,
}

/// Why a board could not be built.
#[derive(Clone, Copy, Debug, PartialEq, Eq, Structural)]
pub enum BoardError {
    /// The side length is zero.
    EmptyBoard,
    /// `size * size` cells do not fit in memory's index range.
    BoardTooLarge,
    /// At least as many mines as cells, or more than a `u32` can count.
    TooManyMines,
    /// A listed mine lies off the board.
    MineOutOfBounds,
    /// A cell is listed twice as a mine.
    DuplicateMine,
    /// Fewer draws than mines to place.
    MissingDraws,
}

/// What a reveal did.
#[derive(Debug, PartialEq)]
pub enum RevealResult {
    /// The cells, as `(row, col)`, that went from hidden to revealed; empty when nothing changed.
    Revealed(Vec<(usize, usize)>),
    /// The reveal completed the board.
    Won,
    /// The reveal hit a mine.
    Lost,
}

/// A square Minesweeper board. Cell `(row, col)` is stored at `row * size + col`.
pub struct Board {
    size: usize,
    mine_total: u32,
    flags_placed: u32,
    outcome: GameOutcome,
    cells: Vec<Cell>,
}

pub struct BoardView {
    pub size: nat,
    pub mine_total: nat,
    pub flags_placed: nat,
    pub outcome: GameOutcome,
    pub cells: Seq<Cell>,
}

/// The indices of the cells in state `s`.
pub open spec fn cells_in_state(cells: Seq<Cell>, s: CellState) -> Set<int> {
    Set::new(|i: int| 0 <= i < cells.len() && cells[i].state == s)
}

/// The indices of the mine cells.
pub open spec fn mine_cells(cells: Seq<Cell>) -> Set<int> {
    Set::new(|i: int| 0 <= i < cells.len() && cells[i].is_mine)
}

/// Every mine is flagged and every other cell is revealed.
pub open spec fn cleared(cells: Seq<Cell>) -> bool {
    forall|i: int|
        0 <= i < cells.len() ==> (#[trigger] cells[i]).state == (if cells[i].is_mine {
            CellState::Flagged
        } else {
            CellState::Revealed
        })
}

/// The error that building a `size × size` board with `mines` mines meets, if any.
pub open spec fn dimension_error(size: nat, mines: nat) -> Option<BoardError> {
    if size == 0 {
        Some(BoardError::EmptyBoard)
    } else if size * size > usize::MAX {
        Some(BoardError::BoardTooLarge)
    } else if mines >= size * size || mines > u32::MAX {
        Some(BoardError::TooManyMines)
    } else {
        None
    }
}

pub proof fn lemma_state_set_finite(cells: Seq<Cell>, s: CellState)
    ensures
        cells_in_state(cells, s).finite(),
        cells_in_state(cells, s).len() <= cells.len(),
{
    vstd::set_lib::lemma_int_range(0, cells.len() as int);
    vstd::set_lib::lemma_len_subset(cells_in_state(cells, s), vstd::set_lib::set_int_range(0, cells.len() as int));
}

/// Changing one cell moves at most that index in or out of a state's set.
pub proof fn lemma_state_set_update(cells: Seq<Cell>, i: int, x: Cell, s: CellState)
    requires
        0 <= i < cells.len(),
    ensures
        cells_in_state(cells.update(i, x), s) == (if x.state == s {
            cells_in_state(cells, s).insert(i)
        } else {
            cells_in_state(cells, s).remove(i)
        }),
{
    if x.state == s {
        assert(cells_in_state(cells.update(i, x), s) =~= cells_in_state(cells, s).insert(i));
    } else {
        assert(cells_in_state(cells.update(i, x), s) =~= cells_in_state(cells, s).remove(i));
    }
}

/// `x` with its flag switched on or off.
pub open spec fn flag_toggled(x: Cell) -> Cell {
    Cell {
        state: if x.state == CellState::Flagged {
            CellState::Hidden
        } else {
            CellState::Flagged
        },
        ..x
    }
}

/// Only the cell at `(qr, qc)` differs between `v` and `w`, and it became `x`.
pub proof fn lemma_cell_update(v: BoardView, w: BoardView, qr: int, qc: int, x: Cell)
    requires
        v.cells.len() == v.size * v.size,
        w.size == v.size,
        v.in_bounds(qr, qc),
        w.cells == v.cells.update(flat(v.size as int, qr, qc), x),
    ensures
        forall|r: int, c: int|
            v.in_bounds(r, c) ==> #[trigger] w.cell(r, c) == (if r == qr && c == qc {
                x
            } else {
                v.cell(r, c)
            }),
{
    assert forall|r: int, c: int| v.in_bounds(r, c) implies #[trigger] w.cell(r, c) == (if r == qr && c == qc {
        x
    } else {
        v.cell(r, c)
    }) by {
        lemma_flat_bounds(v.size as int, r, c);
        lemma_flat_bounds(v.size as int, qr, qc);
        if flat(v.size as int, r, c) == flat(v.size as int, qr, qc) {
            lemma_flat_injective(v.size as int, r, c, qr, qc);
        }
    }
}

/// `x` once a lost game has shown it: mines revealed, other cells as they were.
pub open spec fn mine_shown(x: Cell) -> Cell {
    if x.is_mine {
        Cell { state: CellState::Revealed, ..x }
    } else {
        x
    }
}

/// `x` revealed.
pub open spec fn shown(x: Cell) -> Cell {
    Cell { state: CellState::Revealed, ..x }
}

/// `b` is `a`, or `a` was a hidden safe cell and `b` is it revealed.
pub open spec fn reveal_step(a: Cell, b: Cell) -> bool {
    b == a || (a.state == CellState::Hidden && !a.is_mine && b == shown(a))
}

pub open spec fn pt(e: (usize, usize)) -> (int, int) {
    (e.0 as int, e.1 as int)
}

/// Some entry of `s` is the point `p`.
pub open spec fn holds_point(s: Seq<(usize, usize)>, p: (int, int)) -> bool {
    exists|k: int| 0 <= k < s.len() && pt(#[trigger] s[k]) == p
}

/// `p` is on the board, safe and hidden in `o`.
pub open spec fn eligible(o: BoardView, p: (int, int)) -> bool {
    o.in_bounds(p.0, p.1) && !o.cell(p.0, p.1).is_mine && o.cell(p.0, p.1).state == CellState::Hidden
}

/// `p` was hidden in `o` and is revealed in `w`.
pub open spec fn newly_revealed(o: BoardView, w: BoardView, p: (int, int)) -> bool {
    o.in_bounds(p.0, p.1) && o.cell(p.0, p.1).state == CellState::Hidden && w.cell(p.0, p.1).state
        == CellState::Revealed
}

/// A chain of edge-adjacent safe hidden cells of `o` from `start` to `end` in which every
/// cell but the last touches no mine: the way a flood reaches `end`.
pub open spec fn flood_path(o: BoardView, start: (int, int), path: Seq<(int, int)>, end: (int, int)) -> bool {
    &&& path.len() > 0
    &&& path[0] == start
    &&& path[path.len() - 1] == end
    &&& forall|k: int| 0 <= k < path.len() ==> eligible(o, #[trigger] path[k])
    &&& forall|k: int|
        0 <= k < path.len() - 1 ==> edge_adjacent(#[trigger] path[k], path[k + 1]) && o.neighbor_mines(
            path[k].0,
            path[k].1,
        ) == 0
}

/// Every safe cell that was hidden in `o` and shares an edge with `p` is revealed in `w`.
pub open spec fn settled(o: BoardView, w: BoardView, p: (int, int)) -> bool {
    forall|q: (int, int)| #[trigger] edge_adjacent(p, q) && eligible(o, q) ==> w.cell(q.0, q.1).state == CellState::Revealed
}

/// `w` is `o` after a flood reveal from `start`: `start` and the zero-count region around it
/// with its border are revealed, and nothing that no flood path reaches.
pub open spec fn flood_result(o: BoardView, w: BoardView, start: (int, int)) -> bool {
    &&& w.size == o.size
    &&& w.mine_total == o.mine_total
    &&& w.flags_placed == o.flags_placed
    &&& w.cells.len() == o.cells.len()
    &&& forall|i: int| 0 <= i < o.cells.len() ==> reveal_step(o.cells[i], #[trigger] w.cells[i])
    &&& w.cell(start.0, start.1).state == CellState::Revealed
    &&& forall|p: (int, int)|
        #[trigger] newly_revealed(o, w, p) && o.neighbor_mines(p.0, p.1) == 0 ==> settled(o, w, p)
    &&& forall|p: (int, int)|
        #[trigger] newly_revealed(o, w, p) ==> exists|path: Seq<(int, int)>| #[trigger] flood_path(o, start, path, p)
}

/// `ch` lists, once each, exactly the cells that went from hidden in `o` to revealed in `w`.
pub open spec fn lists_changes(o: BoardView, w: BoardView, ch: Seq<(usize, usize)>) -> bool {
    &&& ch.no_duplicates()
    &&& forall|k: int| 0 <= k < ch.len() ==> newly_revealed(o, w, pt(#[trigger] ch[k]))
    &&& forall|p: (int, int)| #[trigger] newly_revealed(o, w, p) ==> holds_point(ch, p)
}

/// The state of a flood in progress: the result so far, the cells whose neighbours are
/// still to be visited, and the one (`cur`) being expanded.
pub open spec fn flood_inv(
    o: BoardView,
    start: (int, int),
    w: BoardView,
    stack: Seq<(usize, usize)>,
    changed: Seq<(usize, usize)>,
    cur: (int, int),
) -> bool {
    &&& o.wf()
    &&& w.size == o.size
    &&& w.mine_total == o.mine_total
    &&& w.flags_placed == o.flags_placed
    &&& w.outcome == o.outcome
    &&& w.cells.len() == o.cells.len()
    &&& forall|i: int| 0 <= i < o.cells.len() ==> reveal_step(o.cells[i], #[trigger] w.cells[i])
    &&& w.cell(start.0, start.1).state == CellState::Revealed
    &&& forall|k: int|
        0 <= k < stack.len() ==> newly_revealed(o, w, pt(#[trigger] stack[k])) && o.neighbor_mines(
            stack[k].0 as int,
            stack[k].1 as int,
        ) == 0
    &&& forall|p: (int, int)|
        #[trigger] newly_revealed(o, w, p) && o.neighbor_mines(p.0, p.1) == 0 && !holds_point(stack, p) && p
            != cur ==> settled(o, w, p)
    &&& forall|p: (int, int)|
        #[trigger] newly_revealed(o, w, p) ==> exists|path: Seq<(int, int)>| #[trigger] flood_path(o, start, path, p)
    &&& lists_changes(o, w, changed)
}

/// A flood result and its list of changes do not depend on the recorded outcome.
proof fn lemma_flood_outcome_free(o: BoardView, w: BoardView, w2: BoardView, start: (int, int), ch: Seq<(usize, usize)>)
    requires
        flood_result(o, w, start),
        lists_changes(o, w, ch),
        w2.size == w.size,
        w2.mine_total == w.mine_total,
        w2.flags_placed == w.flags_placed,
        w2.cells == w.cells,
    ensures
        flood_result(o, w2, start),
        lists_changes(o, w2, ch),
{
    assert forall|p: (int, int)| #[trigger] newly_revealed(o, w2, p) == newly_revealed(o, w, p) by {}
    assert forall|p: (int, int)| settled(o, w2, p) == settled(o, w, p) by {
        assert forall|q: (int, int)| w2.cell(q.0, q.1) == w.cell(q.0, q.1) by {}
    }
    assert forall|p: (int, int)| #[trigger] newly_revealed(o, w2, p) && o.neighbor_mines(p.0, p.1) == 0 implies settled(o, w2, p) by {
        assert(newly_revealed(o, w, p));
        assert(settled(o, w, p));
    }
    assert forall|p: (int, int)| #[trigger] newly_revealed(o, w2, p) implies exists|path: Seq<(int, int)>| #[trigger] flood_path(o, start, path, p) by {
        assert(newly_revealed(o, w, p));
    }
    assert forall|k: int| 0 <= k < ch.len() implies newly_revealed(o, w2, pt(#[trigger] ch[k])) by {
        assert(newly_revealed(o, w, pt(ch[k])));
    }
    assert forall|p: (int, int)| #[trigger] newly_revealed(o, w2, p) implies holds_point(ch, p) by {
        assert(newly_revealed(o, w, p));
    }
}

impl BoardView {
    pub open spec fn in_bounds(self, r: int, c: int) -> bool {
        in_grid(self.size as int, r, c)
    }

    pub open spec fn cell(self, r: int, c: int) -> Cell {
        self.cells[flat(self.size as int, r, c)]
    }

    pub open spec fn mine_mask(self) -> Seq<bool> {
        self.cells.map_values(|x: Cell| x.is_mine)
    }

    /// The true number of mines around `(r, c)`.
    pub open spec fn neighbor_mines(self, r: int, c: int) -> int {
        neighbor_count(self.mine_mask(), self.size as int, r, c)
    }

    pub open spec fn wf(self) -> bool {
        &&& self.size > 0
        &&& self.size * self.size <= usize::MAX
        &&& self.cells.len() == self.size * self.size
        &&& self.mine_total < self.size * self.size
        &&& self.mine_total <= u32::MAX
        &&& self.flags_placed <= self.mine_total
        &&& self.flags_placed == cells_in_state(self.cells, CellState::Flagged).len()
        &&& mine_cells(self.cells).len() == self.mine_total
        &&& forall|r: int, c: int|
            self.in_bounds(r, c) ==> (#[trigger] self.cell(r, c)).adjacent_mine_count
                == self.neighbor_mines(r, c)
        &&& (self.outcome == GameOutcome::Won) == cleared(self.cells)
        &&& self.outcome == GameOutcome::Lost ==> forall|i: int|
            0 <= i < self.cells.len() && (#[trigger] self.cells[i]).is_mine ==> self.cells[i].state
                == CellState::Revealed
    }

    /// A flag may be placed on or taken off `(r, c)`.
    pub open spec fn flag_allowed(self, r: int, c: int) -> bool {
        &&& self.outcome == GameOutcome::InProgress
        &&& self.in_bounds(r, c)
        &&& self.cell(r, c).state != CellState::Revealed
        &&& (self.cell(r, c).state == CellState::Flagged || self.flags_placed < self.mine_total)
    }

    /// A reveal of `(r, c)` does something.
    pub open spec fn reveal_allowed(self, r: int, c: int) -> bool {
        &&& self.outcome == GameOutcome::InProgress
        &&& self.in_bounds(r, c)
        &&& self.cell(r, c).state == CellState::Hidden
    }

    /// A board as built: nothing revealed or flagged, the game under way.
    pub open spec fn fresh(self) -> bool {
        &&& self.outcome == GameOutcome::InProgress
        &&& self.flags_placed == 0
        &&& forall|i: int| 0 <= i < self.cells.len() ==> (#[trigger] self.cells[i]).state == CellState::Hidden
    }
}

impl View for Board {
    type V = BoardView;

    closed spec fn view(&self) -> BoardView {
        BoardView {
            size: self.size as nat,
            mine_total: self.mine_total as nat,
            flags_placed: self.flags_placed as nat,
            outcome: self.outcome,
            cells: self.cells@,
        }
    }
}

fn dimension_check(size: usize, mines: usize) -> (e: Option<BoardError>)
    ensures
        e == dimension_error(size as nat, mines as nat),
{
    if size == 0 {
        return Some(BoardError::EmptyBoard);
    }
    match size.checked_mul(size) {
        None => Some(BoardError::BoardTooLarge),
        Some(n) => {
            if mines >= n || mines > 4294967295 {
                Some(BoardError::TooManyMines)
            } else {
                None
            }
        },
    }
}

impl Board {
    /// Builds a fresh board over a mine mask, computing every cell's neighbour count.
    fn build(size: usize, mine_total: u32, mask: &Vec<bool>) -> (b: Board)
        requires
            size > 0,
            size * size <= usize::MAX,
            mask@.len() == size * size,
            mine_total < size * size,
            set_positions(mask@).len() == mine_total,
        ensures
            b@.wf(),
            b@.fresh(),
            b@.size == size,
            b@.mine_total == mine_total,
            b@.mine_mask() == mask@,
    {
        let n = size * size;
        let mut cells: Vec<Cell> = Vec::new();
        let mut i: usize = 0;
        while i < n
            invariant
                n == size * size,
                size > 0,
                size * size <= usize::MAX,
                mask@.len() == n,
                i <= n,
                cells@.len() == i,
                forall|k: int|
                    0 <= k < i ==> #[trigger] cells@[k] == (Cell {
                        is_mine: mask@[k],
                        adjacent_mine_count: neighbor_count(mask@, size as int, k / size as int, k % size as int) as u8,
                        state: CellState::Hidden,
                    }),
                forall|k: int|
                    0 <= k < i ==> 0 <= #[trigger] neighbor_count(mask@, size as int, k / size as int, k % size as int) <= 8,
            decreases n - i,
        {
            proof {
                lemma_flat_split(size as int, i as int);
            }
            let r = i / size;
            let c = i % size;
            let count = count_neighbors(mask, size, r, c);
            cells.push(Cell { is_mine: mask[i], adjacent_mine_count: count, state: CellState::Hidden });
            i = i + 1;
        }
        let b = Board { size, mine_total, flags_placed: 0, outcome: GameOutcome::InProgress, cells };
        proof {
            assert(b@.mine_mask() =~= mask@);
            assert(mine_cells(b@.cells) =~= set_positions(mask@));
            assert(cells_in_state(b@.cells, CellState::Flagged) =~= Set::empty());
            assert forall|r: int, c: int| b@.in_bounds(r, c) implies (#[trigger] b@.cell(r, c)).adjacent_mine_count
                == b@.neighbor_mines(r, c) by {
                let k = flat(size as int, r, c);
                lemma_flat_bounds(size as int, r, c);
                lemma_flat_split(size as int, k);
                lemma_flat_injective(size as int, r, c, k / size as int, k % size as int);
                assert(cells@[k].adjacent_mine_count as int == neighbor_count(mask@, size as int, r, c));
            }
            if cleared(b@.cells) {
                assert(b@.cells[0].state == CellState::Hidden);
                assert(false);
            }
        }
        b
    }

    /// A board whose mines are exactly the listed `(row, col)` cells.
    pub fn with_mines(size: usize, mines: &Vec<(usize, usize)>) -> (res: Result<Board, BoardError>)
        ensures
            dimension_error(size as nat, mines@.len()) matches Some(e) ==> res == Err::<Board, BoardError>(e),
            dimension_error(size as nat, mines@.len()) is None ==> {
                if exists|k: int| 0 <= k < mines@.len() && !in_grid(size as int, #[trigger] mines@[k].0 as int, mines@[k].1 as int) {
                    res == Err::<Board, BoardError>(BoardError::MineOutOfBounds)
                } else if !mines@.no_duplicates() {
                    res == Err::<Board, BoardError>(BoardError::DuplicateMine)
                } else {
                    res is Ok
                }
            },
            res matches Ok(b) ==> {
                &&& b@.wf()
                &&& b@.fresh()
                &&& b@.size == size
                &&& b@.mine_total == mines@.len()
                &&& forall|r: int, c: int| #[trigger] b@.in_bounds(r, c) ==>
                    (b@.cell(r, c).is_mine <==> mines@.contains((r as usize, c as usize)))
            },
    {
        if let Some(e) = dimension_check(size, mines.len()) {
            return Err(e);
        }
        let mut positions: Vec<usize> = Vec::new();
        let mut k: usize = 0;
        while k < mines.len()
            invariant
                dimension_error(size as nat, mines@.len()) is None,
                size > 0,
                size * size <= usize::MAX,
                k <= mines@.len(),
                positions@.len() == k,
                forall|j: int| 0 <= j < k ==> in_grid(size as int, #[trigger] mines@[j].0 as int, mines@[j].1 as int),
                forall|j: int| 0 <= j < k ==> #[trigger] positions@[j] as int == flat(size as int, mines@[j].0 as int, mines@[j].1 as int),
                forall|j: int| 0 <= j < k ==> #[trigger] positions@[j] < size * size,
            decreases mines@.len() - k,
        {
            let (r, c) = mines[k];
            if r >= size || c >= size {
                return Err(BoardError::MineOutOfBounds);
            }
            positions.push(flat_index(size, r, c));
            k = k + 1;
        }
        proof {
            assert forall|a: int, b: int| 0 <= a < mines@.len() && 0 <= b < mines@.len() && a != b implies
                (positions@[a] == positions@[b] <==> mines@[a] == mines@[b]) by {
                if positions@[a] == positions@[b] {
                    lemma_flat_injective(size as int, mines@[a].0 as int, mines@[a].1 as int, mines@[b].0 as int, mines@[b].1 as int);
                }
            }
        }
        match mark_mines(size * size, &positions) {
            None => Err(BoardError::DuplicateMine),
            Some(mask) => {
                let b = Board::build(size, mines.len() as u32, &mask);
                proof {
                    assert forall|r: int, c: int| #[trigger] b@.in_bounds(r, c) implies
                        (b@.cell(r, c).is_mine <==> mines@.contains((r as usize, c as usize))) by {
                        let i = flat(size as int, r, c);
                        lemma_flat_bounds(size as int, r, c);
                        assert(b@.mine_mask()[i] == b@.cell(r, c).is_mine);
                        if mines@.contains((r as usize, c as usize)) {
                            let j = choose|j: int| 0 <= j < mines@.len() && mines@[j] == (r as usize, c as usize);
                            assert(positions@[j] == i as usize);
                        }
                        if positions@.contains(i as usize) {
                            let j = choose|j: int| 0 <= j < positions@.len() && positions@[j] == i as usize;
                            lemma_flat_injective(size as int, mines@[j].0 as int, mines@[j].1 as int, r, c);
                            assert(mines@[j] == (r as usize, c as usize));
                        }
                    }
                }
                Ok(b)
            },
        }
    }

    /// A board whose `mine_count` mines are the cells (by row-major index) that
    /// the draws select through `shuffle_prefix`.
    pub fn from_draws(size: usize, mine_count: u32, draws: &Vec<usize>) -> (res: Result<Board, BoardError>)
        ensures
            dimension_error(size as nat, mine_count as nat) matches Some(e) ==> res == Err::<Board, BoardError>(e),
            dimension_error(size as nat, mine_count as nat) is None ==> {
                if draws@.len() < mine_count {
                    res == Err::<Board, BoardError>(BoardError::MissingDraws)
                } else {
                    res is Ok
                }
            },
            res matches Ok(b) ==> {
                &&& b@.wf()
                &&& b@.fresh()
                &&& b@.size == size
                &&& b@.mine_total == mine_count
                &&& forall|i: int| 0 <= i < b@.cells.len() ==>
                    ((#[trigger] b@.cells[i]).is_mine <==> drawn_positions((size * size) as nat, draws@, mine_count as nat).contains(i as usize))
            },
    {
        if let Some(e) = dimension_check(size, mine_count as usize) {
            return Err(e);
        }
        if draws.len() < mine_count as usize {
            return Err(BoardError::MissingDraws);
        }
        let n = size * size;
        let m = mine_count as usize;
        let perm = shuffle_prefix(n, m, draws);
        let mut chosen: Vec<usize> = Vec::new();
        let mut k: usize = 0;
        while k < m
            invariant
                m <= n,
                perm@.len() == n,
                k <= m,
                chosen@ == perm@.subrange(0, k as int),
            decreases m - k,
        {
            chosen.push(perm[k]);
            k = k + 1;
            assert(chosen@ =~= perm@.subrange(0, k as int));
        }
        proof {
            assert(chosen@ == drawn_positions(n as nat, draws@, m as nat));
            assert forall|a: int, b: int| 0 <= a < chosen@.len() && 0 <= b < chosen@.len() && a != b implies
                chosen@[a] != chosen@[b] by {
                assert(perm@[a] != perm@[b]);
            }
            assert(chosen@.no_duplicates());
        }
        match mark_mines(n, &chosen) {
            None => Err(BoardError::MissingDraws),
            Some(mask) => {
                let b = Board::build(size, mine_count, &mask);
                proof {
                    assert forall|i: int| 0 <= i < b@.cells.len() implies
                        ((#[trigger] b@.cells[i]).is_mine <==> chosen@.contains(i as usize)) by {
                        assert(b@.mine_mask()[i] == b@.cells[i].is_mine);
                    }
                }
                Ok(b)
            },
        }
    }

    /// A fresh `size × size` board with `mine_count` mines at uniformly random cells.
    pub fn new(size: usize, mine_count: u32) -> (res: Result<Board, BoardError>)
        ensures
            dimension_error(size as nat, mine_count as nat) matches Some(e) ==> res == Err::<Board, BoardError>(e),
            dimension_error(size as nat, mine_count as nat) is None ==> res is Ok,
            res matches Ok(b) ==> {
                &&& b@.wf()
                &&& b@.fresh()
                &&& b@.size == size
                &&& b@.mine_total == mine_count
            },
    {
        if let Some(e) = dimension_check(size, mine_count as usize) {
            return Err(e);
        }
        let draws = random_draws(size * size, mine_count as usize);
        Board::from_draws(size, mine_count, &draws)
    }
}

impl Board {
    /// Every mine is flagged and every other cell revealed.
    pub fn is_cleared(&self) -> (b: bool)
        ensures
            b == cleared(self@.cells),
    {
        let mut i: usize = 0;
        while i < self.cells.len()
            invariant
                i <= self.cells@.len(),
                forall|k: int| 0 <= k < i ==> (#[trigger] self.cells@[k]).state == (if self.cells@[k].is_mine {
                    CellState::Flagged
                } else {
                    CellState::Revealed
                }),
            decreases self.cells@.len() - i,
        {
            let x = self.cells[i];
            let want = if x.is_mine {
                CellState::Flagged
            } else {
                CellState::Revealed
            };
            if x.state != want {
                return false;
            }
            i = i + 1;
        }
        true
    }

    /// Places or removes a flag on `(row, col)`; `false`, and no change, where that is not allowed.
    pub fn toggle_flag(&mut self, row: usize, col: usize) -> (changed: bool)
        requires
            old(self)@.wf(),
        ensures
            final(self)@.wf(),
            changed == old(self)@.flag_allowed(row as int, col as int),
            !changed ==> final(self)@ == old(self)@,
            changed ==> {
                let i = flat(old(self)@.size as int, row as int, col as int);
                let was = old(self)@.cell(row as int, col as int);
                &&& final(self)@.size == old(self)@.size
                &&& final(self)@.mine_total == old(self)@.mine_total
                &&& final(self)@.cells == old(self)@.cells.update(i, flag_toggled(was))
                &&& final(self)@.flags_placed == (if was.state == CellState::Flagged {
                    old(self)@.flags_placed - 1
                } else {
                    old(self)@.flags_placed + 1int
                })
                &&& final(self)@.outcome == (if cleared(final(self)@.cells) {
                    GameOutcome::Won
                } else {
                    GameOutcome::InProgress
                })
            },
    {
        if self.outcome != GameOutcome::InProgress || row >= self.size || col >= self.size {
            return false;
        }
        let i = flat_index(self.size, row, col);
        let x = self.cells[i];
        let ghost before = self@;
        proof {
            lemma_state_set_finite(before.cells, CellState::Flagged);
            lemma_state_set_update(before.cells, i as int, flag_toggled(x), CellState::Flagged);
            lemma_flat_bounds(self.size as int, row as int, col as int);
            vstd::set::axiom_set_remove_len(cells_in_state(before.cells, CellState::Flagged), i as int);
            vstd::set::axiom_set_insert_len(cells_in_state(before.cells, CellState::Flagged), i as int);
        }
        match x.state {
            CellState::Revealed => {
                return false;
            },
            CellState::Hidden => {
                if self.flags_placed >= self.mine_total {
                    return false;
                }
                self.cells.set(i, Cell { state: CellState::Flagged, ..x });
                self.flags_placed = self.flags_placed + 1;
            },
            CellState::Flagged => {
                self.cells.set(i, Cell { state: CellState::Hidden, ..x });
                self.flags_placed = self.flags_placed - 1;
            },
        }
        if self.is_cleared() {
            self.outcome = GameOutcome::Won;
        }
        proof {
            assert(self@.cells == before.cells.update(i as int, flag_toggled(x)));
            assert(mine_cells(self@.cells) =~= mine_cells(before.cells));
            assert(self@.mine_mask() =~= before.mine_mask());
            lemma_cell_update(before, self@, row as int, col as int, flag_toggled(x));
            assert forall|r: int, c: int| self@.in_bounds(r, c) implies (#[trigger] self@.cell(r, c)).adjacent_mine_count
                == self@.neighbor_mines(r, c) by {
                assert(before.cell(r, c).adjacent_mine_count == before.neighbor_mines(r, c));
            }
        }
        true
    }
}

impl Board {
    /// Ends a lost game: every mine is revealed, flags on mines are dropped from the count.
    fn show_mines(&mut self, hit: usize)
        requires
            old(self)@.wf(),
            old(self)@.outcome == GameOutcome::InProgress,
            hit < old(self)@.cells.len(),
            old(self)@.cells[hit as int].is_mine,
        ensures
            final(self)@.wf(),
            final(self)@.outcome == GameOutcome::Lost,
            final(self)@.size == old(self)@.size,
            final(self)@.mine_total == old(self)@.mine_total,
            final(self)@.cells == old(self)@.cells.map_values(|x: Cell| mine_shown(x)),
    {
        let ghost o = self@;
        let mut i: usize = 0;
        while i < self.cells.len()
            invariant
                o.wf(),
                self@.size == o.size,
                self@.mine_total == o.mine_total,
                self@.outcome == o.outcome,
                self@.cells.len() == o.cells.len(),
                i <= o.cells.len(),
                forall|k: int| 0 <= k < i ==> #[trigger] self@.cells[k] == mine_shown(o.cells[k]),
                forall|k: int| i <= k < o.cells.len() ==> #[trigger] self@.cells[k] == o.cells[k],
                self@.flags_placed == cells_in_state(self@.cells, CellState::Flagged).len(),
                cells_in_state(self@.cells, CellState::Flagged).subset_of(cells_in_state(o.cells, CellState::Flagged)),
            decreases o.cells.len() - i,
        {
            let x = self.cells[i];
            if x.is_mine {
                let ghost before = self@.cells;
                proof {
                    lemma_state_set_finite(before, CellState::Flagged);
                    lemma_state_set_update(before, i as int, shown(x), CellState::Flagged);
                    vstd::set::axiom_set_remove_len(cells_in_state(before, CellState::Flagged), i as int);
                }
                if x.state == CellState::Flagged {
                    self.flags_placed = self.flags_placed - 1;
                }
                self.cells.set(i, Cell { state: CellState::Revealed, ..x });
            }
            i = i + 1;
        }
        self.outcome = GameOutcome::Lost;
        proof {
            assert(self@.cells =~= o.cells.map_values(|x: Cell| mine_shown(x)));
            lemma_state_set_finite(o.cells, CellState::Flagged);
            vstd::set_lib::lemma_len_subset(cells_in_state(self@.cells, CellState::Flagged), cells_in_state(o.cells, CellState::Flagged));
            assert(mine_cells(self@.cells) =~= mine_cells(o.cells));
            assert(self@.mine_mask() =~= o.mine_mask());
            assert forall|r: int, c: int| self@.in_bounds(r, c) implies (#[trigger] self@.cell(r, c)).adjacent_mine_count
                == self@.neighbor_mines(r, c) by {
                lemma_flat_bounds(o.size as int, r, c);
                assert(o.cell(r, c).adjacent_mine_count == o.neighbor_mines(r, c));
            }
            assert(self@.cells[hit as int].state == CellState::Revealed);
        }
    }

    /// Reveals `(r, c)` if it is a safe hidden cell, queueing it when it touches no mine.
    fn visit(
        &mut self,
        stack: &mut Vec<(usize, usize)>,
        changed: &mut Vec<(usize, usize)>,
        r: usize,
        c: usize,
        Ghost(o): Ghost<BoardView>,
        Ghost(start): Ghost<(int, int)>,
        Ghost(cur): Ghost<(int, int)>,
    )
        requires
            flood_inv(o, start, old(self)@, old(stack)@, old(changed)@, cur),
            newly_revealed(o, old(self)@, cur),
            o.neighbor_mines(cur.0, cur.1) == 0,
            edge_adjacent(cur, (r as int, c as int)),
            r < o.size,
            c < o.size,
        ensures
            flood_inv(o, start, final(self)@, final(stack)@, final(changed)@, cur),
            eligible(o, (r as int, c as int)) ==> final(self)@.cell(r as int, c as int).state == CellState::Revealed,
            forall|a: int, b: int|
                o.in_bounds(a, b) && old(self)@.cell(a, b).state == CellState::Revealed ==> #[trigger] final(self)@.cell(a, b).state
                    == CellState::Revealed,
            2 * cells_in_state(final(self)@.cells, CellState::Hidden).len() + final(stack)@.len()
                <= 2 * cells_in_state(old(self)@.cells, CellState::Hidden).len() + old(stack)@.len(),
    {
        let i = flat_index(self.size, r, c);
        let x = self.cells[i];
        if x.is_mine || x.state != CellState::Hidden {
            proof {
                lemma_flat_bounds(o.size as int, r as int, c as int);
                assert(reveal_step(o.cells[i as int], self@.cells[i as int]));
            }
            return;
        }
        let ghost w = self@;
        let ghost st = stack@;
        let ghost ch = changed@;
        let ghost q = (r as int, c as int);
        self.cells.set(i, Cell { state: CellState::Revealed, ..x });
        changed.push((r, c));
        if x.adjacent_mine_count == 0 {
            stack.push((r, c));
        }
        proof {
            let w2 = self@;
            lemma_flat_bounds(o.size as int, r as int, c as int);
            lemma_cell_update(w, w2, r as int, c as int, shown(x));
            assert(reveal_step(o.cells[i as int], w.cells[i as int]));
            assert(o.cell(q.0, q.1) == x);
            assert(o.cell(q.0, q.1).adjacent_mine_count == o.neighbor_mines(q.0, q.1));
            assert forall|j: int| 0 <= j < o.cells.len() implies reveal_step(o.cells[j], #[trigger] w2.cells[j]) by {
                assert(reveal_step(o.cells[j], w.cells[j]));
            }
            assert(newly_revealed(o, w2, q));
            assert forall|p: (int, int)| #[trigger] newly_revealed(o, w2, p) && p != q implies newly_revealed(o, w, p) by {
                assert(w2.cell(p.0, p.1) == w.cell(p.0, p.1));
            }
            assert forall|p: (int, int)| #[trigger] newly_revealed(o, w, p) implies newly_revealed(o, w2, p) && p != q by {
                assert(w2.cell(p.0, p.1) == w.cell(p.0, p.1));
            }
            // the stack
            assert forall|k: int| 0 <= k < stack@.len() implies newly_revealed(o, w2, pt(#[trigger] stack@[k])) && o.neighbor_mines(
                stack@[k].0 as int,
                stack@[k].1 as int,
            ) == 0 by {
                if k < st.len() {
                    assert(stack@[k] == st[k]);
                    assert(newly_revealed(o, w, pt(st[k])));
                }
            }
            // settled cells stay settled
            assert forall|p: (int, int)|
                #[trigger] newly_revealed(o, w2, p) && o.neighbor_mines(p.0, p.1) == 0 && !holds_point(stack@, p) && p
                    != cur implies settled(o, w2, p) by {
                if p == q {
                    assert(stack@[stack@.len() - 1] == (r, c));
                    assert(holds_point(stack@, p));
                } else {
                    assert(newly_revealed(o, w, p));
                    if holds_point(st, p) {
                        let k = choose|k: int| 0 <= k < st.len() && pt(#[trigger] st[k]) == p;
                        assert(stack@[k] == st[k]);
                    }
                    assert(settled(o, w, p));
                    assert forall|q2: (int, int)| #[trigger] edge_adjacent(p, q2) && eligible(o, q2) implies w2.cell(q2.0, q2.1).state
                        == CellState::Revealed by {
                        assert(w.cell(q2.0, q2.1).state == CellState::Revealed);
                    }
                }
            }
            // paths
            let pp = choose|path: Seq<(int, int)>| #[trigger] flood_path(o, start, path, cur);
            assert(flood_path(o, start, pp, cur));
            let np = pp.push(q);
            assert forall|k: int| 0 <= k < np.len() implies eligible(o, #[trigger] np[k]) by {
                if k < pp.len() {
                    assert(np[k] == pp[k]);
                }
            }
            assert forall|k: int| 0 <= k < np.len() - 1 implies edge_adjacent(#[trigger] np[k], np[k + 1]) && o.neighbor_mines(
                np[k].0,
                np[k].1,
            ) == 0 by {
                assert(np[k] == pp[k]);
                if k < pp.len() - 1 {
                    assert(np[k + 1] == pp[k + 1]);
                }
            }
            assert(flood_path(o, start, np, q));
            assert forall|p: (int, int)| #[trigger] newly_revealed(o, w2, p) implies exists|path: Seq<(int, int)>| #[trigger] flood_path(o, start, path, p) by {
                if p == q {
                    assert(flood_path(o, start, np, q));
                } else {
                    assert(newly_revealed(o, w, p));
                }
            }
            // the list of changes
            assert forall|k: int| 0 <= k < ch.len() implies pt(#[trigger] ch[k]) != q by {
                assert(newly_revealed(o, w, pt(ch[k])));
            }
            assert forall|a: int, b: int| 0 <= a < changed@.len() && 0 <= b < changed@.len() && a != b implies changed@[a]
                != changed@[b] by {
                if a < ch.len() && b < ch.len() {
                    assert(changed@[a] == ch[a] && changed@[b] == ch[b]);
                } else if a < ch.len() {
                    assert(pt(ch[a]) != q);
                } else if b < ch.len() {
                    assert(pt(ch[b]) != q);
                }
            }
            assert forall|k: int| 0 <= k < changed@.len() implies newly_revealed(o, w2, pt(#[trigger] changed@[k])) by {
                if k < ch.len() {
                    assert(changed@[k] == ch[k]);
                    assert(newly_revealed(o, w, pt(ch[k])));
                }
            }
            assert forall|p: (int, int)| #[trigger] newly_revealed(o, w2, p) implies holds_point(changed@, p) by {
                if p == q {
                    assert(pt(changed@[changed@.len() - 1]) == q);
                } else {
                    assert(newly_revealed(o, w, p));
                    assert(holds_point(ch, p));
                    let k = choose|k: int| 0 <= k < ch.len() && pt(#[trigger] ch[k]) == p;
                    assert(changed@[k] == ch[k]);
                }
            }
            assert(lists_changes(o, w2, changed@));
            // the measure
            lemma_state_set_finite(w.cells, CellState::Hidden);
            lemma_state_set_update(w.cells, i as int, shown(x), CellState::Hidden);
            vstd::set::axiom_set_remove_len(cells_in_state(w.cells, CellState::Hidden), i as int);
            assert(cells_in_state(w.cells, CellState::Hidden).contains(i as int));
            assert forall|a: int, b: int|
                o.in_bounds(a, b) && w.cell(a, b).state == CellState::Revealed implies #[trigger] w2.cell(a, b).state
                    == CellState::Revealed by {
                assert(w2.cell(a, b) == (if a == q.0 && b == q.1 { shown(x) } else { w.cell(a, b) }));
            }
        }
    }
}

impl Board {
    /// Takes one cell off the work stack and visits its four edge neighbours.
    fn expand(
        &mut self,
        stack: &mut Vec<(usize, usize)>,
        changed: &mut Vec<(usize, usize)>,
        Ghost(o): Ghost<BoardView>,
        Ghost(start): Ghost<(int, int)>,
    )
        requires
            flood_inv(o, start, old(self)@, old(stack)@, old(changed)@, (-1int, -1int)),
            old(stack)@.len() > 0,
        ensures
            flood_inv(o, start, final(self)@, final(stack)@, final(changed)@, (-1int, -1int)),
            2 * cells_in_state(final(self)@.cells, CellState::Hidden).len() + final(stack)@.len()
                < 2 * cells_in_state(old(self)@.cells, CellState::Hidden).len() + old(stack)@.len(),
    {
        let ghost none = (-1int, -1int);
        let ghost st = stack@;
        let (r, c) = stack.pop().unwrap();
        let ghost cur = (r as int, c as int);
        proof {
            assert(st[st.len() - 1] == (r, c));
            assert(newly_revealed(o, self@, pt(st[st.len() - 1])));
            assert(stack@ =~= st.drop_last());
            assert forall|p: (int, int)|
                #[trigger] newly_revealed(o, self@, p) && o.neighbor_mines(p.0, p.1) == 0 && !holds_point(stack@, p)
                    && p != cur implies settled(o, self@, p) by {
                if holds_point(st, p) {
                    let k = choose|k: int| 0 <= k < st.len() && pt(#[trigger] st[k]) == p;
                    if k < st.len() - 1 {
                        assert(stack@[k] == st[k]);
                    }
                }
            }
            assert forall|k: int| 0 <= k < stack@.len() implies newly_revealed(o, self@, pt(#[trigger] stack@[k])) && o.neighbor_mines(
                stack@[k].0 as int,
                stack@[k].1 as int,
            ) == 0 by {
                assert(stack@[k] == st[k]);
            }
            assert(o.neighbor_mines(cur.0, cur.1) == 0);
        }
        let size = self.size;
        if r > 0 {
            self.visit(stack, changed, r - 1, c, Ghost(o), Ghost(start), Ghost(cur));
        }
        if r + 1 < size {
            self.visit(stack, changed, r + 1, c, Ghost(o), Ghost(start), Ghost(cur));
        }
        if c > 0 {
            self.visit(stack, changed, r, c - 1, Ghost(o), Ghost(start), Ghost(cur));
        }
        if c + 1 < size {
            self.visit(stack, changed, r, c + 1, Ghost(o), Ghost(start), Ghost(cur));
        }
        proof {
            assert forall|q: (int, int)| #[trigger] edge_adjacent(cur, q) && eligible(o, q) implies self@.cell(q.0, q.1).state
                == CellState::Revealed by {
            }
            assert(settled(o, self@, cur));
        }
    }

    /// Reveals `(row, col)` and floods out from it along edges through cells that touch no
    /// mine, with an explicit work stack; returns the cells it revealed.
    fn flood(&mut self, row: usize, col: usize) -> (changed: Vec<(usize, usize)>)
        requires
            old(self)@.wf(),
            eligible(old(self)@, (row as int, col as int)),
        ensures
            flood_result(old(self)@, final(self)@, (row as int, col as int)),
            final(self)@.outcome == old(self)@.outcome,
            lists_changes(old(self)@, final(self)@, changed@),
    {
        let ghost o = self@;
        let ghost start = (row as int, col as int);
        let i = flat_index(self.size, row, col);
        let x = self.cells[i];
        self.cells.set(i, Cell { state: CellState::Revealed, ..x });
        let mut changed: Vec<(usize, usize)> = Vec::new();
        changed.push((row, col));
        let mut stack: Vec<(usize, usize)> = Vec::new();
        if x.adjacent_mine_count == 0 {
            stack.push((row, col));
        }
        let ghost none = (-1int, -1int);
        proof {
            let w = self@;
            lemma_flat_bounds(o.size as int, row as int, col as int);
            lemma_cell_update(o, w, row as int, col as int, shown(x));
            assert(o.cell(row as int, col as int).adjacent_mine_count == o.neighbor_mines(row as int, col as int));
            assert forall|p: (int, int)| #[trigger] newly_revealed(o, w, p) implies p == start by {
                if p != start {
                    assert(w.cell(p.0, p.1) == o.cell(p.0, p.1));
                }
            }
            assert forall|j: int| 0 <= j < o.cells.len() implies reveal_step(o.cells[j], #[trigger] w.cells[j]) by {
                if j != i as int {
                    assert(w.cells[j] == o.cells[j]);
                }
            }
            let sp = seq![start];
            assert(flood_path(o, start, sp, start));
            assert(newly_revealed(o, w, start));
            assert(pt(changed@[0]) == start);
            assert(holds_point(changed@, start));
            if x.adjacent_mine_count == 0 {
                assert(pt(stack@[0]) == start);
            }
            assert(flood_inv(o, start, w, stack@, changed@, none));
        }
        while stack.len() > 0
            invariant
                flood_inv(o, start, self@, stack@, changed@, (-1int, -1int)),
            decreases 2 * cells_in_state(self@.cells, CellState::Hidden).len() + stack@.len(),
        {
            self.expand(&mut stack, &mut changed, Ghost(o), Ghost(start));
        }
        proof {
            let w = self@;
            assert forall|p: (int, int)| #[trigger] newly_revealed(o, w, p) && o.neighbor_mines(p.0, p.1) == 0 implies settled(o, w, p) by {
                assert(!holds_point(stack@, p));
                assert(p != none);
            }
        }
        changed
    }

    /// Reveals `(row, col)`. A mine loses the game and shows every mine; a safe cell floods
    /// out as far as cells that touch no mine lead, and may win the game.
    pub fn reveal_cell(&mut self, row: usize, col: usize) -> (res: RevealResult)
        requires
            old(self)@.wf(),
        ensures
            final(self)@.wf(),
            !old(self)@.reveal_allowed(row as int, col as int) ==> {
                &&& final(self)@ == old(self)@
                &&& res matches RevealResult::Revealed(ch) && ch@.len() == 0
            },
            old(self)@.reveal_allowed(row as int, col as int) && old(self)@.cell(row as int, col as int).is_mine ==> {
                &&& res is Lost
                &&& final(self)@.outcome == GameOutcome::Lost
                &&& final(self)@.size == old(self)@.size
                &&& final(self)@.mine_total == old(self)@.mine_total
                &&& final(self)@.cells == old(self)@.cells.map_values(|x: Cell| mine_shown(x))
            },
            old(self)@.reveal_allowed(row as int, col as int) && !old(self)@.cell(row as int, col as int).is_mine ==> {
                &&& flood_result(old(self)@, final(self)@, (row as int, col as int))
                &&& final(self)@.outcome == (if cleared(final(self)@.cells) {
                    GameOutcome::Won
                } else {
                    GameOutcome::InProgress
                })
                &&& (res is Won <==> cleared(final(self)@.cells))
                &&& (res matches RevealResult::Revealed(ch) ==> lists_changes(old(self)@, final(self)@, ch@))
                &&& !(res is Lost)
            },
    {
        if self.outcome != GameOutcome::InProgress || row >= self.size || col >= self.size {
            return RevealResult::Revealed(Vec::new());
        }
        let i = flat_index(self.size, row, col);
        let x = self.cells[i];
        if x.state != CellState::Hidden {
            return RevealResult::Revealed(Vec::new());
        }
        if x.is_mine {
            proof {
                lemma_flat_bounds(self.size as int, row as int, col as int);
            }
            self.show_mines(i);
            return RevealResult::Lost;
        }
        let ghost o = self@;
        let changed = self.flood(row, col);
        let ghost w = self@;
        let won = self.is_cleared();
        if won {
            self.outcome = GameOutcome::Won;
        }
        proof {
            lemma_flood_outcome_free(o, w, self@, (row as int, col as int), changed@);
            let w = self@;
            assert forall|j: int| 0 <= j < o.cells.len() implies (#[trigger] w.cells[j]).is_mine == o.cells[j].is_mine
                && w.cells[j].adjacent_mine_count == o.cells[j].adjacent_mine_count
                && (w.cells[j].state == CellState::Flagged <==> o.cells[j].state == CellState::Flagged) by {
                assert(reveal_step(o.cells[j], w.cells[j]));
            }
            assert(cells_in_state(w.cells, CellState::Flagged) =~= cells_in_state(o.cells, CellState::Flagged));
            assert(mine_cells(w.cells) =~= mine_cells(o.cells));
            assert(w.mine_mask() =~= o.mine_mask());
            assert forall|r: int, c: int| w.in_bounds(r, c) implies (#[trigger] w.cell(r, c)).adjacent_mine_count
                == w.neighbor_mines(r, c) by {
                lemma_flat_bounds(o.size as int, r, c);
                assert(o.cell(r, c).adjacent_mine_count == o.neighbor_mines(r, c));
            }
        }
        if won {
            RevealResult::Won
        } else {
            RevealResult::Revealed(changed)
        }
    }
}

impl Board {
    pub fn size(&self) -> (n: usize)
        ensures
            n == self@.size,
    {
        self.size
    }

    pub fn mine_total(&self) -> (n: u32)
        ensures
            n == self@.mine_total,
    {
        self.mine_total
    }

    pub fn flags_placed(&self) -> (n: u32)
        ensures
            n == self@.flags_placed,
    {
        self.flags_placed
    }

    /// Flags that may still be placed, for a mine counter.
    pub fn remaining_flags(&self) -> (n: u32)
        requires
            self@.wf(),
        ensures
            n == self@.mine_total - self@.flags_placed,
    {
        self.mine_total - self.flags_placed
    }

    pub fn outcome(&self) -> (g: GameOutcome)
        ensures
            g == self@.outcome,
    {
        self.outcome
    }

    /// A copy of cell `(row, col)`; `None` off the board.
    pub fn cell(&self, row: usize, col: usize) -> (x: Option<Cell>)
        requires
            self@.wf(),
        ensures
            self@.in_bounds(row as int, col as int) ==> x == Some(self@.cell(row as int, col as int)),
            !self@.in_bounds(row as int, col as int) ==> x is None,
    {
        if row >= self.size || col >= self.size {
            return None;
        }
        Some(self.cells[flat_index(self.size, row, col)])
    }
}

/// The number of flags on a well-formed board never exceeds its number of mines.
pub proof fn lemma_flags_within_budget(b: &Board)
    requires
        b@.wf(),
    ensures
        b@.flags_placed <= b@.mine_total,
        b@.flags_placed == cells_in_state(b@.cells, CellState::Flagged).len(),
{
}

/// No cell is ever both revealed and flagged: a cell holds exactly one state.
pub proof fn lemma_revealed_never_flagged(b: &Board)
    ensures
        forall|i: int|
            0 <= i < b@.cells.len() ==> !((#[trigger] b@.cells[i]).state == CellState::Revealed && b@.cells[i].state
                == CellState::Flagged),
{
}

/// Every cell at the end of a flood path from `start` is revealed by a flood from `start`.
pub proof fn lemma_flood_reaches(o: BoardView, w: BoardView, start: (int, int), path: Seq<(int, int)>, end: (int, int))
    requires
        flood_result(o, w, start),
        flood_path(o, start, path, end),
    ensures
        newly_revealed(o, w, end),
    decreases path.len(),
{
    let n = path.len();
    assert(eligible(o, path[n - 1]));
    if n == 1 {
        assert(eligible(o, path[0]));
    } else {
        let prev = path.drop_last();
        let p = path[n - 2];
        assert forall|k: int| 0 <= k < prev.len() implies eligible(o, #[trigger] prev[k]) by {
            assert(prev[k] == path[k]);
            assert(eligible(o, path[k]));
        }
        assert forall|k: int| 0 <= k < prev.len() - 1 implies edge_adjacent(#[trigger] prev[k], prev[k + 1])
            && o.neighbor_mines(prev[k].0, prev[k].1) == 0 by {
            assert(prev[k] == path[k] && prev[k + 1] == path[k + 1]);
            assert(edge_adjacent(path[k], path[k + 1]));
        }
        assert(flood_path(o, start, prev, p));
        lemma_flood_reaches(o, w, start, prev, p);
        assert(edge_adjacent(path[n - 2], path[n - 1]));
        assert(settled(o, w, p));
        assert(edge_adjacent(p, end) && eligible(o, end));
    }
}

/// A flood from `start` reveals exactly the cells that a flood path from `start` reaches:
/// the connected region of safe hidden cells that touch no mine, together with its border
/// of cells that do, and nothing beyond that border.
pub proof fn lemma_flood_region(o: BoardView, w: BoardView, start: (int, int), p: (int, int))
    requires
        flood_result(o, w, start),
    ensures
        newly_revealed(o, w, p) <==> exists|path: Seq<(int, int)>| #[trigger] flood_path(o, start, path, p),
{
    if exists|path: Seq<(int, int)>| #[trigger] flood_path(o, start, path, p) {
        let path = choose|path: Seq<(int, int)>| #[trigger] flood_path(o, start, path, p);
        lemma_flood_reaches(o, w, start, path, p);
    }
}

/// A well-formed board holds exactly `mine_total` mines, all of them on the board.
pub proof fn lemma_mine_total_exact(b: &Board)
    requires
        b@.wf(),
    ensures
        mine_cells(b@.cells).len() == b@.mine_total,
        forall|i: int| #[trigger] mine_cells(b@.cells).contains(i) ==> {
            &&& 0 <= i < b@.size * b@.size
            &&& b@.in_bounds(i / b@.size as int, i % b@.size as int)
            &&& b@.cell(i / b@.size as int, i % b@.size as int).is_mine
        },
{
    assert forall|i: int| #[trigger] mine_cells(b@.cells).contains(i) implies {
        &&& 0 <= i < b@.size * b@.size
        &&& b@.in_bounds(i / b@.size as int, i % b@.size as int)
        &&& b@.cell(i / b@.size as int, i % b@.size as int).is_mine
    } by {
        lemma_flat_split(b@.size as int, i);
    }
}

/// On a well-formed board every cell's count is the number of mines among its up-to-eight
/// neighbours on the board.
pub proof fn lemma_counts_exact(b: &Board, r: int, c: int)
    requires
        b@.wf(),
        b@.in_bounds(r, c),
    ensures
        b@.cell(r, c).adjacent_mine_count == neighbor_count(b@.mine_mask(), b@.size as int, r, c),
        0 <= b@.cell(r, c).adjacent_mine_count <= 8,
{
    assert(b@.cell(r, c).adjacent_mine_count == b@.neighbor_mines(r, c));
}

} // verus!
