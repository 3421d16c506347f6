//! The well: a fixed grid of settled gems plus one falling three-gem piece.
//!
//! All quantities are fixed-point integers so that every transition is exact:
//! elapsed time is in milliseconds, fall speed in milli-rows per second, and
//! fall progress in micro-rows ([`PROGRESS_ONE`] micro-rows make one row, so a
//! speed of `s` milli-rows per second over `d` milliseconds adds exactly
//! `d * s` micro-rows of progress).
//!
//! Grid coordinates: row `0` is the floor, rows grow upward; column `0` is the
//! left edge. The falling piece is a vertical stack of three gems; gem `0` of
//! the piece is the lowest and sits at `(piece_row, piece_col)`, gems `1` and
//! `2` sit one and two rows above it.

use vstd::prelude::*;

use crate::gems::Gem;
use crate::gems::GemPalette;

verus! {

use vstd::arithmetic::div_mod::lemma_fundamental_div_mod_converse;
use vstd::arithmetic::div_mod::lemma_div_by_multiple;
use vstd::arithmetic::div_mod::lemma_div_is_ordered;
use vstd::arithmetic::div_mod::lemma_hoist_over_denominator;
use vstd::arithmetic::div_mod::lemma_mod_multiples_vanish;
use vstd::arithmetic::div_mod::lemma_fundamental_div_mod;
use vstd::arithmetic::div_mod::lemma_div_pos_is_pos;
use vstd::arithmetic::div_mod::lemma_mod_division_less_than_divisor;
use vstd::arithmetic::mul::lemma_mul_inequality;

/// Micro-rows per row: the fall-progress value at which the piece crosses into
/// the next row below.
pub const PROGRESS_ONE: u64 = 1000000;

/// The column in which a freshly spawned piece appears.
pub const SPAWN_COL: usize = 3;

/// The identity of gem `i` of a piece drawn when the identity counter stands
/// at `base`. The counter restarts at zero in the (practically unreachable)
/// case that three more identities would not fit in it.
pub open spec fn fresh_gem_id(base: u64, i: int) -> u64 {
    if base + 3 <= u64::MAX { (base + i) as u64 } else { i as u64 }
}

/// Where the identity counter stands after a piece was drawn at `base`.
pub open spec fn next_base_after(base: u64) -> u64 {
    if base + 3 <= u64::MAX { (base + 3) as u64 } else { 3u64 }
}

/// Whether a piece whose lowest gem is at `row` of column `col` cannot
/// descend within the row-major grid `cells` of width `columns`: it sits on
/// the floor, or on a settled gem directly below.
pub open spec fn column_blocked(cells: Seq<Option<Gem>>, columns: int, col: int, row: int) -> bool {
    row <= 0 || cells[(row - 1) * columns + col] is Some
}

/// How many rows such a piece can descend before it is blocked.
pub open spec fn column_drop(cells: Seq<Option<Gem>>, columns: int, col: int, row: int) -> nat
    decreases row,
{
    if column_blocked(cells, columns, col, row) {
        0
    } else {
        1 + column_drop(cells, columns, col, row - 1)
    }
}

/// The interpolated position of one falling gem, for presentation.
#[derive(Clone, Copy, PartialEq, Eq, Structural, Debug)]
pub struct GemOffset {
    /// Identity of the gem this offset is for.
    pub gem_id: u64,
    /// Horizontal position, in whole columns.
    pub col: usize,
    /// Vertical position, in micro-rows above row `0`: the gem's row times
    /// [`PROGRESS_ONE`] minus the progress already made toward the row below.
    /// It falls as the piece falls, and is briefly negative while the piece
    /// stands on the floor accumulating the progress that will make it land.
    pub y_micro: i64,
}

/// The well: grid bounds, the settled grid, and the falling piece.
///
/// The fields are public so that contracts can speak of them directly; callers
/// must mutate a well only through its methods, which preserve [`Well::wf`].
pub struct Well {
    /// Number of grid columns; constant for the lifetime of the well.
    pub columns: usize,
    /// Number of grid rows; constant for the lifetime of the well.
    pub rows: usize,
    /// The falling piece, ordered bottom to top.
    pub falling_piece: [Gem; 3],
    /// Grid row of the piece's lowest gem; `rows` when freshly spawned, `0` at
    /// the floor.
    pub piece_row: usize,
    /// Grid column of the piece; always below `columns`.
    pub piece_col: usize,
    /// Progress from the current row toward the row below, in micro-rows;
    /// always below [`PROGRESS_ONE`].
    pub fall_progress: u64,
    /// Fall speed in milli-rows per second; constant for the lifetime of the
    /// well.
    pub fall_speed: u64,
    /// The next unused gem identity.
    pub next_gem_id: u64,
    /// The settled grid, row-major: the cell at `(row, col)` is entry
    /// `row * columns + col`, and holds the gem that landed there, if any.
    pub settled_cells: Vec<Option<Gem>>,
}

impl Well {
    /// Index of the cell `(row, col)` in the dense settled grid.
    pub open spec fn cell_index(self, row: int, col: int) -> int {
        row * (self.columns as int) + col
    }

    /// The settled gem at `(row, col)`, if any.
    pub open spec fn cell(self, row: int, col: int) -> Option<Gem> {
        self.settled_cells@[self.cell_index(row, col)]
    }

    /// Whether `(row, col)` lies inside the grid.
    pub open spec fn in_grid(self, row: int, col: int) -> bool {
        0 <= row < self.rows && 0 <= col < self.columns
    }

    /// The settled cells as a map from grid coordinates to gems: keyed by
    /// coordinate, so no coordinate can hold two gems.
    pub open spec fn settled_map(self) -> Map<(int, int), Gem> {
        Map::new(
            |k: (int, int)| self.in_grid(k.0, k.1) && self.cell(k.0, k.1) is Some,
            |k: (int, int)| self.cell(k.0, k.1)->Some_0,
        )
    }

    /// Valid grid dimensions: the spawn column exists, there is at least one
    /// row, and the grid and the interpolated positions fit their integer
    /// representations.
    pub open spec fn dims_ok(columns: int, rows: int) -> bool {
        &&& (SPAWN_COL as int) < columns
        &&& 1 <= rows
        &&& rows * columns <= usize::MAX as int
        &&& (rows + 3) * (PROGRESS_ONE as int) <= i64::MAX as int
    }

    /// The piece's column holds no settled gem at the piece's row or above it:
    /// the space the piece occupies, and will land in, is free.
    pub open spec fn piece_column_clear(self) -> bool {
        forall|r: int|
            self.piece_row <= r < self.rows ==> self.cell(r, self.piece_col as int) is None
    }

    /// Well-formedness: the invariant every method preserves.
    pub open spec fn wf(self) -> bool {
        &&& Self::dims_ok(self.columns as int, self.rows as int)
        &&& self.piece_col < self.columns
        &&& self.piece_row <= self.rows
        &&& self.fall_progress < PROGRESS_ONE
        &&& self.settled_cells@.len() == self.rows * self.columns
        &&& self.piece_column_clear()
    }

    /// A cell of the grid has its index inside the dense settled vector.
    pub proof fn lemma_cell_index_bounds(self, row: int, col: int)
        requires
            self.in_grid(row, col),
        ensures
            0 <= self.cell_index(row, col) < self.rows * self.columns,
    {
        let c = self.columns as int;
        lemma_mul_inequality(row, self.rows - 1, c);
        assert((self.rows - 1) * c == self.rows * c - c) by (nonlinear_arith);
    }

    /// Distinct grid coordinates have distinct indices in the dense settled
    /// vector.
    pub proof fn lemma_cell_index_injective(self, r1: int, c1: int, r2: int, c2: int)
        requires
            self.in_grid(r1, c1),
            self.in_grid(r2, c2),
            self.cell_index(r1, c1) == self.cell_index(r2, c2),
        ensures
            r1 == r2 && c1 == c2,
    {
        let c = self.columns as int;
        if r1 < r2 {
            lemma_mul_inequality(r1 + 1, r2, c);
            assert((r1 + 1) * c == r1 * c + c) by (nonlinear_arith);
        }
        if r2 < r1 {
            lemma_mul_inequality(r2 + 1, r1, c);
            assert((r2 + 1) * c == r2 * c + c) by (nonlinear_arith);
        }
    }

    /// Whether the piece, with its lowest gem at `row`, cannot descend one
    /// more row: it sits on the floor, or on a settled gem directly below.
    pub open spec fn blocked(self, row: int) -> bool {
        column_blocked(self.settled_cells@, self.columns as int, self.piece_col as int, row)
    }

    /// How many rows the piece can still descend from `row` before it is
    /// blocked.
    pub open spec fn free_drop(self, row: int) -> nat {
        column_drop(self.settled_cells@, self.columns as int, self.piece_col as int, row)
    }

    /// What `free_drop` means row by row: the piece descends through exactly
    /// the unblocked rows and stops at the first blocked one.
    pub proof fn lemma_free_drop(self, row: int)
        requires
            0 <= row,
        ensures
            self.free_drop(row) <= row,
            self.blocked(row - self.free_drop(row)),
            forall|r2: int|
                row - self.free_drop(row) < r2 <= row ==> !(#[trigger] self.blocked(r2)),
        decreases row,
    {
        if !self.blocked(row) {
            self.lemma_free_drop(row - 1);
        }
    }

    /// Descending `k` unblocked rows leaves exactly `free_drop - k` more.
    pub proof fn lemma_free_drop_sub(self, row: int, k: int)
        requires
            0 <= row,
            0 <= k <= self.free_drop(row),
        ensures
            self.free_drop(row - k) == self.free_drop(row) - k,
        decreases k,
    {
        if k > 0 {
            self.lemma_free_drop_sub(row - 1, k - 1);
        }
    }

    /// The settled gem at `(row, col)`, read from the dense grid; `None` for
    /// an empty cell. Agrees with [`Well::settled_map`], the grid read as a
    /// coordinate-keyed mapping.
    pub fn settled_at(&self, row: usize, col: usize) -> (g: Option<Gem>)
        requires
            self.settled_cells@.len() == self.rows * self.columns,
            row < self.rows,
            col < self.columns,
        ensures
            g == self.cell(row as int, col as int),
            g is Some <==> self.settled_map().contains_key((row as int, col as int)),
            g is Some ==> g->Some_0 == self.settled_map()[(row as int, col as int)],
    {
        // the grid size is the length of a vector, so the index fits a usize
        let _len: usize = self.settled_cells.len();
        proof {
            self.lemma_cell_index_bounds(row as int, col as int);
        }
        let idx: usize = row * self.columns + col;
        self.settled_cells[idx]
    }

    /// Builds a well if the configuration is valid — the spawn column exists,
    /// there is at least one row, and the grid fits its representation — and
    /// reports the invalid configuration otherwise.
    pub fn try_new(columns: usize, rows: usize, initial_speed: u64) -> (r: Option<Well>)
        ensures
            r is Some <==> Self::dims_ok(columns as int, rows as int),
            r is Some ==> Self::is_fresh(r->Some_0, columns, rows, initial_speed),
    {
        if columns > SPAWN_COL && rows >= 1 && rows <= usize::MAX / columns
            && (rows as u64) <= (i64::MAX as u64) / PROGRESS_ONE - 3 {
            proof {
                let c = columns as int;
                lemma_fundamental_div_mod(usize::MAX as int, c);
                lemma_mul_inequality(rows as int, (usize::MAX as int) / c, c);
                lemma_fundamental_div_mod(i64::MAX as int, PROGRESS_ONE as int);
                lemma_mul_inequality(
                    rows as int + 3,
                    (i64::MAX as int) / (PROGRESS_ONE as int),
                    PROGRESS_ONE as int,
                );
            }
            Some(Self::new(columns, rows, initial_speed))
        } else {
            proof {
                if Self::dims_ok(columns as int, rows as int) {
                    let c = columns as int;
                    lemma_div_is_ordered(rows as int * c, usize::MAX as int, c);
                    lemma_div_by_multiple(rows as int, c);
                    lemma_div_is_ordered(
                        (rows as int + 3) * (PROGRESS_ONE as int),
                        i64::MAX as int,
                        PROGRESS_ONE as int,
                    );
                    lemma_div_by_multiple(rows as int + 3, PROGRESS_ONE as int);
                }
            }
            None
        }
    }

    /// What a freshly constructed well looks like: empty grid, a newly drawn
    /// piece at the spawn position, no progress.
    pub open spec fn is_fresh(w: Well, columns: usize, rows: usize, initial_speed: u64) -> bool {
        &&& w.wf()
        &&& w.columns == columns
        &&& w.rows == rows
        &&& w.fall_speed == initial_speed
        &&& w.piece_row == rows
        &&& w.piece_col == SPAWN_COL
        &&& w.fall_progress == 0
        &&& forall|r: int, c: int| w.in_grid(r, c) ==> w.cell(r, c) is None
        &&& forall|i: int| 0 <= i < 3 ==> w.falling_piece[i].id == fresh_gem_id(0, i)
        &&& w.next_gem_id == next_base_after(0)
    }

    /// Builds a well over an empty grid, with a freshly drawn piece at the
    /// spawn position: lowest gem at row `rows` (one row above the top of the
    /// grid, so the piece never overlaps a settled cell), column
    /// [`SPAWN_COL`], no progress yet.
    pub fn new(columns: usize, rows: usize, initial_speed: u64) -> (w: Well)
        requires
            Self::dims_ok(columns as int, rows as int),
        ensures
            Self::is_fresh(w, columns, rows, initial_speed),
    {
        proof {
            lemma_mul_inequality(1, rows as int, columns as int);
        }
        let size: usize = rows * columns;
        let mut settled: Vec<Option<Gem>> = Vec::new();
        let mut filled: usize = 0;
        while filled < size
            invariant
                filled == settled@.len() <= size,
                forall|k: int| 0 <= k < filled ==> settled@[k] is None,
            decreases size - filled,
        {
            settled.push(None);
            filled = filled + 1;
        }
        let (piece, next_id) = Self::sample_piece(0);
        let w = Well {
            columns,
            rows,
            falling_piece: piece,
            piece_row: rows,
            piece_col: SPAWN_COL,
            fall_progress: 0,
            fall_speed: initial_speed,
            next_gem_id: next_id,
            settled_cells: settled,
        };
        proof {
            assert forall|r: int, c: int| w.in_grid(r, c) implies w.cell(r, c) is None by {
                w.lemma_cell_index_bounds(r, c);
            }
        }
        w
    }

    /// Total progress accumulated by a call of `advance(delta_ms)`, in
    /// micro-rows: the progress already made plus the elapsed time times the
    /// fall speed.
    pub open spec fn progress_total(self, delta_ms: int) -> int {
        self.fall_progress + delta_ms * self.fall_speed
    }

    /// How many row boundaries that much progress crosses.
    pub open spec fn row_crossings(self, delta_ms: int) -> int {
        self.progress_total(delta_ms) / (PROGRESS_ONE as int)
    }

    /// The well after a call of `advance(delta_ms)` that causes no landing:
    /// the piece descends one row per boundary crossed and keeps the
    /// remainder as progress; nothing else changes.
    pub open spec fn advanced(self, delta_ms: int) -> Well {
        Well {
            piece_row: (self.piece_row - self.row_crossings(delta_ms)) as usize,
            fall_progress: (self.progress_total(delta_ms) % (PROGRESS_ONE as int)) as u64,
            ..self
        }
    }

    /// The row on which the falling piece comes to rest: the floor, or one
    /// row above the topmost settled gem beneath it in its column.
    pub open spec fn rest_row(self) -> int {
        self.piece_row - self.free_drop(self.piece_row as int)
    }

    /// The settled grid after the falling piece lands: each of its three
    /// gems is committed at its resting position; a gem that would rest above
    /// the top of the grid is discarded, so every settled cell stays inside
    /// the grid.
    pub open spec fn landed_cells(self) -> Seq<Option<Gem>> {
        let rest = self.rest_row();
        let col = self.piece_col as int;
        let s0 = self.settled_cells@;
        let s1 = if rest + 0 < self.rows {
            s0.update(self.cell_index(rest + 0, col), Some(self.falling_piece[0]))
        } else {
            s0
        };
        let s2 = if rest + 1 < self.rows {
            s1.update(self.cell_index(rest + 1, col), Some(self.falling_piece[1]))
        } else {
            s1
        };
        if rest + 2 < self.rows {
            s2.update(self.cell_index(rest + 2, col), Some(self.falling_piece[2]))
        } else {
            s2
        }
    }

    /// A well-formed well has so few rows that row arithmetic cannot wrap:
    /// the grid area bounds the row count.
    proof fn lemma_rows_small(self)
        requires
            self.wf(),
        ensures
            self.rows + 3 <= usize::MAX as int,
    {
        lemma_mul_inequality(4, self.columns as int, self.rows as int);
    }

    /// Writes a gem into one cell of the settled grid; nothing else changes.
    fn put_cell(&mut self, row: usize, col: usize, g: Gem)
        requires
            old(self).settled_cells@.len() == old(self).rows * old(self).columns,
            row < old(self).rows,
            col < old(self).columns,
        ensures
            final(self).columns == old(self).columns,
            final(self).rows == old(self).rows,
            final(self).falling_piece == old(self).falling_piece,
            final(self).piece_row == old(self).piece_row,
            final(self).piece_col == old(self).piece_col,
            final(self).fall_progress == old(self).fall_progress,
            final(self).fall_speed == old(self).fall_speed,
            final(self).next_gem_id == old(self).next_gem_id,
            final(self).settled_cells@ == old(self).settled_cells@.update(
                old(self).cell_index(row as int, col as int),
                Some(g),
            ),
            final(self).settled_cells@.len() == old(self).settled_cells@.len(),
    {
        // the grid size is the length of a vector, so the index fits a usize
        let _len: usize = self.settled_cells.len();
        proof {
            self.lemma_cell_index_bounds(row as int, col as int);
        }
        let idx: usize = row * self.columns + col;
        self.settled_cells[idx] = Some(g);
    }

    /// Advances the simulation by `delta_ms` milliseconds of elapsed time.
    ///
    /// Fall progress grows by `delta_ms * fall_speed` micro-rows. Each full
    /// row of progress moves the piece one row down, unless it is blocked —
    /// on the floor, or on a settled gem directly below. A blocked piece
    /// lands: its three gems are committed into the settled grid at their
    /// current rows (a gem above the top of the grid is discarded), a fresh
    /// piece is drawn at the spawn position, and the remaining progress is
    /// discarded — so a single call causes at most one landing, however large
    /// `delta_ms` is.
    ///
    /// The committed cells were empty beforehand (last clause): a landing
    /// never overwrites a settled gem.
    pub fn advance(&mut self, delta_ms: u64)
        requires
            old(self).wf(),
            old(self).progress_total(delta_ms as int) <= u64::MAX as int,
        ensures
            final(self).wf(),
            final(self).columns == old(self).columns,
            final(self).rows == old(self).rows,
            final(self).fall_speed == old(self).fall_speed,
            final(self).piece_col == old(self).piece_col,
            old(self).row_crossings(delta_ms as int) <= old(self).free_drop(
                old(self).piece_row as int,
            ) ==> *final(self) == old(self).advanced(delta_ms as int),
            old(self).row_crossings(delta_ms as int) > old(self).free_drop(
                old(self).piece_row as int,
            ) ==> {
                &&& final(self).settled_cells@ == old(self).landed_cells()
                &&& final(self).piece_row == old(self).rows
                &&& final(self).fall_progress == 0
                &&& forall|i: int|
                    0 <= i < 3 ==> final(self).falling_piece[i].id == fresh_gem_id(
                        old(self).next_gem_id,
                        i,
                    )
                &&& final(self).next_gem_id == next_base_after(old(self).next_gem_id)
            },
            forall|r: int|
                old(self).rest_row() <= r < old(self).rows ==> old(self).cell(
                    r,
                    old(self).piece_col as int,
                ) is None,
    {
        proof {
            old(self).lemma_free_drop(old(self).piece_row as int);
        }
        let ghost total: int = old(self).progress_total(delta_ms as int);
        let ghost fd: int = old(self).free_drop(old(self).piece_row as int) as int;
        let ghost pc: int = old(self).piece_col as int;
        let inc: u64 = delta_ms * self.fall_speed;
        self.fall_progress = self.fall_progress + inc;
        let ghost mut descended: int = 0;
        let ghost mut landed: bool = false;
        while self.fall_progress >= PROGRESS_ONE
            invariant
                old(self).wf(),
                total == old(self).progress_total(delta_ms as int),
                total <= u64::MAX,
                fd == old(self).free_drop(old(self).piece_row as int),
                pc == old(self).piece_col as int,
                self.columns == old(self).columns,
                self.rows == old(self).rows,
                self.fall_speed == old(self).fall_speed,
                self.piece_col == old(self).piece_col,
                !landed ==> {
                    &&& self.settled_cells == old(self).settled_cells
                    &&& self.falling_piece == old(self).falling_piece
                    &&& self.next_gem_id == old(self).next_gem_id
                    &&& 0 <= descended <= fd
                    &&& descended <= old(self).piece_row
                    &&& self.piece_row == old(self).piece_row - descended
                    &&& self.fall_progress == total - descended * (PROGRESS_ONE as int)
                },
                !landed ==> forall|r: int|
                    self.piece_row <= r < self.rows ==> (#[trigger] old(self).cell(r, pc))
                        is None,
                landed ==> {
                    &&& self.settled_cells@ == old(self).landed_cells()
                    &&& self.settled_cells@.len() == old(self).settled_cells@.len()
                    &&& self.piece_row == self.rows
                    &&& self.fall_progress == 0
                    &&& forall|i: int|
                        0 <= i < 3 ==> self.falling_piece[i].id == fresh_gem_id(
                            old(self).next_gem_id,
                            i,
                        )
                    &&& self.next_gem_id == next_base_after(old(self).next_gem_id)
                    &&& total >= (fd + 1) * (PROGRESS_ONE as int)
                },
            decreases self.fall_progress,
        {
            proof {
                old(self).lemma_free_drop(old(self).piece_row as int);
                old(self).lemma_rows_small();
            }
            self.fall_progress = self.fall_progress - PROGRESS_ONE;
            let ghost prev = *self;
            let can_descend: bool = if self.piece_row == 0 {
                false
            } else {
                self.settled_at(self.piece_row - 1, self.piece_col).is_none()
            };
            proof {
                // the current cell reads agree with the entry state: the
                // settled grid has not changed
                if 1 <= prev.piece_row {
                    assert(prev.cell(prev.piece_row - 1, pc) == old(self).cell(
                        prev.piece_row - 1,
                        pc,
                    ));
                }
            }
            if can_descend {
                proof {
                    // the row just left is unblocked, so fewer than `fd` rows
                    // were descended so far
                    assert(!old(self).blocked(old(self).piece_row - descended));
                    descended = descended + 1;
                }
                self.piece_row = self.piece_row - 1;
            } else {
                proof {
                    // the piece is blocked here, so it has descended all `fd`
                    // rows and rests at the landing row
                    assert(old(self).blocked(old(self).piece_row - descended));
                    assert(descended == fd);
                    assert(self.piece_row == old(self).rest_row());
                }
                let rest = self.piece_row;
                let col = self.piece_col;
                if rest < self.rows {
                    let g = self.falling_piece[0];
                    self.put_cell(rest, col, g);
                }
                if rest + 1 < self.rows {
                    let g = self.falling_piece[1];
                    self.put_cell(rest + 1, col, g);
                }
                if rest + 2 < self.rows {
                    let g = self.falling_piece[2];
                    self.put_cell(rest + 2, col, g);
                }
                let (piece, next_id) = Self::sample_piece(self.next_gem_id);
                self.falling_piece = piece;
                self.next_gem_id = next_id;
                self.piece_row = self.rows;
                self.fall_progress = 0;
                proof {
                    landed = true;
                    assert(self.settled_cells@ == old(self).landed_cells());
                }
            }
        }
        proof {
            let one = PROGRESS_ONE as int;
            old(self).lemma_free_drop(old(self).piece_row as int);
            if landed {
                lemma_div_by_multiple(fd + 1, one);
                lemma_div_is_ordered((fd + 1) * one, total, one);
                assert(old(self).row_crossings(delta_ms as int) >= fd + 1);
            } else {
                lemma_fundamental_div_mod_converse(
                    total,
                    one,
                    descended,
                    self.fall_progress as int,
                );
                assert forall|r: int|
                    self.piece_row <= r < self.rows implies (#[trigger] self.cell(r,
                    self.piece_col as int)) is None by {
                    assert(old(self).cell(r, pc) is None);
                    assert(self.cell(r, pc) == old(self).cell(r, pc));
                }
                assert(*self == old(self).advanced(delta_ms as int));
            }
            assert forall|r: int|
                old(self).rest_row() <= r < old(self).rows implies old(self).cell(r, pc)
                is None by {
                if r < old(self).piece_row {
                    assert(!old(self).blocked(r + 1));
                }
            }
        }
    }

    /// Law: the falling piece rests on the floor or exactly one row above the
    /// topmost settled gem beneath it in its column — it stops on top of the
    /// stack rather than falling into it, and every cell from its resting row
    /// up is free.
    pub proof fn lemma_rests_one_above_support(self)
        requires
            self.wf(),
        ensures
            0 <= self.rest_row() <= self.piece_row,
            self.rest_row() == 0 || self.cell(
                self.rest_row() - 1,
                self.piece_col as int,
            ) is Some,
            forall|r: int|
                self.rest_row() <= r < self.rows ==> (#[trigger] self.cell(
                    r,
                    self.piece_col as int,
                )) is None,
    {
        self.lemma_free_drop(self.piece_row as int);
        assert forall|r: int|
            self.rest_row() <= r < self.rows implies (#[trigger] self.cell(
            r,
            self.piece_col as int,
        )) is None by {
            if r < self.piece_row {
                assert(!self.blocked(r + 1));
            }
        }
    }

    /// Law: a landing fills only cells that were empty. Every settled gem
    /// keeps its cell, with the same content, across the commit of a landing
    /// piece; the grid being keyed by coordinate, no coordinate ever comes to
    /// hold two gems.
    pub proof fn lemma_landing_overwrites_nothing(self)
        requires
            self.wf(),
        ensures
            forall|r: int, c: int|
                self.in_grid(r, c) && self.cell(r, c) is Some ==> self.landed_cells()[
                    #[trigger] self.cell_index(r, c)
                ] == self.settled_cells@[self.cell_index(r, c)],
    {
        self.lemma_rests_one_above_support();
        let rest = self.rest_row();
        let pc = self.piece_col as int;
        assert forall|r: int, c: int|
            self.in_grid(r, c) && self.cell(r, c) is Some implies self.landed_cells()[
            #[trigger] self.cell_index(r, c)
        ] == self.settled_cells@[self.cell_index(r, c)] by {
            self.lemma_cell_index_bounds(r, c);
            let idx = self.cell_index(r, c);
            if rest + 0 < self.rows {
                self.lemma_cell_index_bounds(rest + 0, pc);
                if idx == self.cell_index(rest + 0, pc) {
                    self.lemma_cell_index_injective(r, c, rest + 0, pc);
                }
            }
            if rest + 1 < self.rows {
                self.lemma_cell_index_bounds(rest + 1, pc);
                if idx == self.cell_index(rest + 1, pc) {
                    self.lemma_cell_index_injective(r, c, rest + 1, pc);
                }
            }
            if rest + 2 < self.rows {
                self.lemma_cell_index_bounds(rest + 2, pc);
                if idx == self.cell_index(rest + 2, pc) {
                    self.lemma_cell_index_injective(r, c, rest + 2, pc);
                }
            }
        }
    }

    /// Law: a piece that has reached the floor without landing lands on the
    /// next row crossing. `advance` then commits exactly its three gems — at
    /// rows 0, 1 and 2 of its column, all of them empty beforehand — while
    /// every other cell keeps its content; the fresh piece at the spawn row
    /// with progress zero comes from the landing case of `advance`'s
    /// contract, which the first two clauses show to apply.
    pub proof fn lemma_floor_landing(self, delta_ms: int)
        requires
            self.wf(),
            0 <= delta_ms,
            self.piece_row == 0,
            3 <= self.rows,
            PROGRESS_ONE <= self.progress_total(delta_ms),
        ensures
            self.free_drop(self.piece_row as int) == 0,
            self.row_crossings(delta_ms) > 0,
            forall|i: int|
                0 <= i < 3 ==> self.landed_cells()[
                    #[trigger] self.cell_index(i, self.piece_col as int)
                ] == Some(self.falling_piece[i]),
            forall|i: int|
                0 <= i < 3 ==> (#[trigger] self.cell(i, self.piece_col as int)) is None,
            forall|r: int, c: int|
                self.in_grid(r, c) && !(c == self.piece_col as int && 0 <= r < 3)
                    ==> self.landed_cells()[#[trigger] self.cell_index(r, c)]
                    == self.settled_cells@[self.cell_index(r, c)],
    {
        let one = PROGRESS_ONE as int;
        let pc = self.piece_col as int;
        assert(self.blocked(0));
        assert(self.rest_row() == 0);
        lemma_div_by_multiple(1, one);
        lemma_div_is_ordered(one, self.progress_total(delta_ms), one);
        assert forall|i: int|
            0 <= i < 3 implies self.landed_cells()[
            #[trigger] self.cell_index(i, pc)
        ] == Some(self.falling_piece[i]) by {
            self.lemma_cell_index_bounds(0, pc);
            self.lemma_cell_index_bounds(1, pc);
            self.lemma_cell_index_bounds(2, pc);
            if self.cell_index(0, pc) == self.cell_index(1, pc) {
                self.lemma_cell_index_injective(0, pc, 1, pc);
            }
            if self.cell_index(0, pc) == self.cell_index(2, pc) {
                self.lemma_cell_index_injective(0, pc, 2, pc);
            }
            if self.cell_index(1, pc) == self.cell_index(2, pc) {
                self.lemma_cell_index_injective(1, pc, 2, pc);
            }
        }
        assert forall|r: int, c: int|
            self.in_grid(r, c) && !(c == pc && 0 <= r < 3) implies self.landed_cells()[
            #[trigger] self.cell_index(r, c)
        ] == self.settled_cells@[self.cell_index(r, c)] by {
            self.lemma_cell_index_bounds(r, c);
            self.lemma_cell_index_bounds(0, pc);
            self.lemma_cell_index_bounds(1, pc);
            self.lemma_cell_index_bounds(2, pc);
            let idx = self.cell_index(r, c);
            if idx == self.cell_index(0, pc) {
                self.lemma_cell_index_injective(r, c, 0, pc);
            }
            if idx == self.cell_index(1, pc) {
                self.lemma_cell_index_injective(r, c, 1, pc);
            }
            if idx == self.cell_index(2, pc) {
                self.lemma_cell_index_injective(r, c, 2, pc);
            }
        }
    }

    /// Law: splitting elapsed time across two `advance` calls gives the same
    /// state as one aggregate call, provided the aggregate's row crossings
    /// stay within the piece's free drop — that is, no landing occurs. (With
    /// a landing the two ways differ by design: a landing discards leftover
    /// progress, so one large call lands at most once where many small calls
    /// may land repeatedly.)
    pub proof fn lemma_advance_additive(self, a_ms: int, b_ms: int)
        requires
            self.wf(),
            0 <= a_ms,
            0 <= b_ms,
            self.row_crossings(a_ms + b_ms) <= self.free_drop(self.piece_row as int),
        ensures
            self.row_crossings(a_ms) <= self.free_drop(self.piece_row as int),
            self.advanced(a_ms).wf(),
            self.advanced(a_ms).row_crossings(b_ms) <= self.advanced(a_ms).free_drop(
                self.advanced(a_ms).piece_row as int,
            ),
            self.advanced(a_ms).advanced(b_ms) == self.advanced(a_ms + b_ms),
    {
        let one = PROGRESS_ONE as int;
        let s = self.fall_speed as int;
        let row = self.piece_row as int;
        let fd = self.free_drop(row) as int;
        self.lemma_free_drop(row);
        assert((a_ms + b_ms) * s == a_ms * s + b_ms * s) by (nonlinear_arith);
        assert(0 <= a_ms * s) by (nonlinear_arith)
            requires
                0 <= a_ms,
                0 <= s,
        ;
        assert(0 <= b_ms * s) by (nonlinear_arith)
            requires
                0 <= b_ms,
                0 <= s,
        ;
        let ta = self.progress_total(a_ms);
        let tt = self.progress_total(a_ms + b_ms);
        let na = ta / one;
        let nt = tt / one;
        lemma_div_pos_is_pos(ta, one);
        lemma_div_is_ordered(ta, tt, one);
        lemma_fundamental_div_mod(ta, one);
        lemma_mod_division_less_than_divisor(ta, one);
        lemma_mod_division_less_than_divisor(tt, one);
        let mid = self.advanced(a_ms);
        assert(mid.piece_row == row - na);
        assert(mid.fall_progress == ta % one);
        self.lemma_free_drop_sub(row, na);
        assert(mid.free_drop(mid.piece_row as int) == self.free_drop(row - na));
        assert forall|r: int|
            mid.piece_row <= r < mid.rows implies (#[trigger] mid.cell(
            r,
            mid.piece_col as int,
        )) is None by {
            if r < self.piece_row {
                assert(!self.blocked(r + 1));
            } else {
                assert(self.cell(r, self.piece_col as int) is None);
            }
        }
        assert(mid.progress_total(b_ms) == tt - na * one);
        lemma_hoist_over_denominator(tt - na * one, na, PROGRESS_ONE as nat);
        assert(mid.row_crossings(b_ms) == nt - na);
        lemma_mod_multiples_vanish(-na, tt, one);
        assert((tt - na * one) % one == tt % one);
        assert(mid.advanced(b_ms) == self.advanced(a_ms + b_ms));
    }

    /// The interpolated offsets of the three falling gems, bottom to top.
    pub open spec fn offsets_spec(self) -> Seq<GemOffset> {
        Seq::new(
            3,
            |i: int|
                GemOffset {
                    gem_id: self.falling_piece[i].id,
                    col: self.piece_col,
                    y_micro: ((self.piece_row + i) * (PROGRESS_ONE as int)
                        - self.fall_progress) as i64,
                },
        )
    }

    /// Reports, for each gem of the falling piece (bottom to top), its
    /// identity and its continuous position: the piece's column, and a
    /// vertical position that interpolates linearly between the gem's current
    /// row and the row below it as fall progress accumulates.
    ///
    /// This is a pure read: the receiver is shared, so no field — in
    /// particular not `fall_progress` — can change, and the result is a
    /// function of the state alone, so two calls with no `advance` between
    /// them return identical offsets.
    pub fn piece_offsets(&self) -> (r: Vec<GemOffset>)
        requires
            self.wf(),
        ensures
            r@ == self.offsets_spec(),
    {
        proof {
            self.lemma_rows_small();
            lemma_mul_inequality(1, PROGRESS_ONE as int, self.rows as int + 3);
        }
        let one_i: i64 = PROGRESS_ONE as i64;
        let prog: i64 = self.fall_progress as i64;
        let mut r: Vec<GemOffset> = Vec::new();
        let g0 = self.falling_piece[0];
        r.push(
            GemOffset {
                gem_id: g0.id,
                col: self.piece_col,
                y_micro: (self.piece_row as i64) * one_i - prog,
            },
        );
        let g1 = self.falling_piece[1];
        r.push(
            GemOffset {
                gem_id: g1.id,
                col: self.piece_col,
                y_micro: ((self.piece_row + 1) as i64) * one_i - prog,
            },
        );
        let g2 = self.falling_piece[2];
        r.push(
            GemOffset {
                gem_id: g2.id,
                col: self.piece_col,
                y_micro: ((self.piece_row + 2) as i64) * one_i - prog,
            },
        );
        proof {
            assert(r@ =~= self.offsets_spec());
        }
        r
    }

    /// Draws a piece of three freshly sampled gems, with identities counted
    /// up from `base`; also returns the counter for the next draw.
    fn sample_piece(base: u64) -> (r: ([Gem; 3], u64))
        ensures
            forall|i: int| 0 <= i < 3 ==> r.0[i].id == fresh_gem_id(base, i),
            r.1 == next_base_after(base),
    {
        let start: u64 = if base <= u64::MAX - 3 {
            base
        } else {
            0
        };
        let piece = [
            Gem { id: start, gem_type: GemPalette::sample_random() },
            Gem { id: start + 1, gem_type: GemPalette::sample_random() },
            Gem { id: start + 2, gem_type: GemPalette::sample_random() },
        ];
        (piece, start + 3)
    }
}

} // verus!
