//! The rectangular grid puzzle: pieces in rows and columns, an edge between
//! each two pieces that touch, and orbits that tell corners, borders and the
//! interior apart.
use vstd::prelude::*;
use vstd::arithmetic::div_mod::{lemma_fundamental_div_mod, lemma_fundamental_div_mod_converse};
use crate::puzzle::{EdgeKey, PieceKey, PointKey, Puzzle};
use crate::text::string_of;

verus! {

/// The largest number of pieces a grid may have.
pub const MAX_PIECES: usize = 0x1000_0000;

/// Where a piece lies on the grid.
#[derive(Debug, Clone, Copy, PartialEq, Eq, Structural)]
pub struct PieceLoc {
    pub row: usize,
    pub col: usize,
}

/// The side of a piece that a point lies on.
#[derive(Debug, Clone, Copy, PartialEq, Eq, Structural)]
pub enum PointSide {
    Up,
    Right,
    Down,
    Left,
}

/// Where a point lies: on a side of a piece.
#[derive(Debug, Clone, Copy, PartialEq, Eq, Structural)]
pub struct PointLoc {
    pub piece: PieceLoc,
    pub side: PointSide,
}

/// The side of a piece that an edge lies on. Each edge is named from the
/// piece to its left or above it.
#[derive(Debug, Clone, Copy, PartialEq, Eq, Structural)]
pub enum EdgeSide {
    Right,
    Down,
}

/// Where an edge lies: to the right of a piece or below it.
#[derive(Debug, Clone, Copy, PartialEq, Eq, Structural)]
pub struct EdgeLoc {
    pub piece: PieceLoc,
    pub side: EdgeSide,
}

/// What kind of place a piece lies at: one of the four corners, one of the
/// four borders, or the interior.
#[derive(Debug, Clone, Copy, PartialEq, Eq, Structural)]
pub enum PieceLocationKind {
    UpLeft,
    Up,
    UpRight,
    Left,
    Center,
    Right,
    DownLeft,
    Down,
    DownRight,
}

/// A puzzle of `rows` by `cols` pieces on a rectangular grid, at least two
/// each way and with an even number of edges.
#[derive(Debug, Clone, Copy, PartialEq, Eq, Structural)]
pub struct SquarePuzzle {
    rows: usize,
    cols: usize,
}

/// The side that follows `side` on the walk around a piece of the given kind.
/// A corner has two sides, a border three, an interior piece four.
pub open spec fn next_side(kind: PieceLocationKind, side: PointSide) -> PointSide {
    match (kind, side) {
        (PieceLocationKind::UpLeft, PointSide::Right) => PointSide::Down,
        (PieceLocationKind::UpLeft, PointSide::Down) => PointSide::Right,
        (PieceLocationKind::UpRight, PointSide::Down) => PointSide::Left,
        (PieceLocationKind::UpRight, PointSide::Left) => PointSide::Down,
        (PieceLocationKind::DownRight, PointSide::Left) => PointSide::Up,
        (PieceLocationKind::DownRight, PointSide::Up) => PointSide::Left,
        (PieceLocationKind::DownLeft, PointSide::Up) => PointSide::Right,
        (PieceLocationKind::DownLeft, PointSide::Right) => PointSide::Up,
        (PieceLocationKind::Up, PointSide::Right) => PointSide::Down,
        (PieceLocationKind::Up, PointSide::Down) => PointSide::Left,
        (PieceLocationKind::Up, PointSide::Left) => PointSide::Right,
        (PieceLocationKind::Right, PointSide::Down) => PointSide::Left,
        (PieceLocationKind::Right, PointSide::Left) => PointSide::Up,
        (PieceLocationKind::Right, PointSide::Up) => PointSide::Down,
        (PieceLocationKind::Down, PointSide::Left) => PointSide::Up,
        (PieceLocationKind::Down, PointSide::Up) => PointSide::Right,
        (PieceLocationKind::Down, PointSide::Right) => PointSide::Left,
        (PieceLocationKind::Left, PointSide::Up) => PointSide::Right,
        (PieceLocationKind::Left, PointSide::Right) => PointSide::Down,
        (PieceLocationKind::Left, PointSide::Down) => PointSide::Up,
        (PieceLocationKind::Center, PointSide::Up) => PointSide::Right,
        (PieceLocationKind::Center, PointSide::Right) => PointSide::Down,
        (PieceLocationKind::Center, PointSide::Down) => PointSide::Left,
        (PieceLocationKind::Center, PointSide::Left) => PointSide::Up,
        _ => side,
    }
}

/// The orbit of a point on `side` of a piece of the given kind. The upper left
/// corner has two orbits of its own, so that no turn or flip of the whole
/// puzzle is taken for a new assembly; the other three corners share two, the
/// borders three, and the interior one. A side that the piece does not have
/// is given 8.
pub open spec fn orbit(kind: PieceLocationKind, side: PointSide) -> u32 {
    match (kind, side) {
        (PieceLocationKind::UpLeft, PointSide::Right) => 0,
        (PieceLocationKind::UpLeft, PointSide::Down) => 1,
        (PieceLocationKind::UpRight, PointSide::Down) => 2,
        (PieceLocationKind::UpRight, PointSide::Left) => 3,
        (PieceLocationKind::DownRight, PointSide::Left) => 2,
        (PieceLocationKind::DownRight, PointSide::Up) => 3,
        (PieceLocationKind::DownLeft, PointSide::Up) => 2,
        (PieceLocationKind::DownLeft, PointSide::Right) => 3,
        (PieceLocationKind::Up, PointSide::Right) => 4,
        (PieceLocationKind::Up, PointSide::Down) => 5,
        (PieceLocationKind::Up, PointSide::Left) => 6,
        (PieceLocationKind::Right, PointSide::Down) => 4,
        (PieceLocationKind::Right, PointSide::Left) => 5,
        (PieceLocationKind::Right, PointSide::Up) => 6,
        (PieceLocationKind::Down, PointSide::Left) => 4,
        (PieceLocationKind::Down, PointSide::Up) => 5,
        (PieceLocationKind::Down, PointSide::Right) => 6,
        (PieceLocationKind::Left, PointSide::Up) => 4,
        (PieceLocationKind::Left, PointSide::Right) => 5,
        (PieceLocationKind::Left, PointSide::Down) => 6,
        (PieceLocationKind::Center, _) => 7,
        _ => 8,
    }
}

/// The orbit of the point that follows a point of orbit `id` on the walk
/// around its piece.
pub open spec fn next_orbit(id: u32) -> u32 {
    match id {
        0 => 1,
        1 => 0,
        2 => 3,
        3 => 2,
        4 => 5,
        5 => 6,
        6 => 4,
        _ => id,
    }
}

/// How many sides the piece of a point of orbit `id` shares with other
/// pieces.
pub open spec fn orbit_sides(id: u32) -> nat {
    if id < 4 {
        2
    } else if id < 7 {
        3
    } else {
        4
    }
}

/// How many sides a piece of the given kind shares with other pieces.
pub open spec fn side_count(kind: PieceLocationKind) -> nat {
    match kind {
        PieceLocationKind::UpLeft
        | PieceLocationKind::UpRight
        | PieceLocationKind::DownLeft
        | PieceLocationKind::DownRight => 2,
        PieceLocationKind::Center => 4,
        _ => 3,
    }
}

/// How many steps the walk around a piece of the given kind takes from the
/// side it starts on to `side`. The walk starts downwards in the first row
/// and upwards in every other.
pub open spec fn side_rank(kind: PieceLocationKind, side: PointSide) -> nat {
    match (kind, side) {
        (PieceLocationKind::UpLeft, PointSide::Right) => 1,
        (PieceLocationKind::UpRight, PointSide::Left) => 1,
        (PieceLocationKind::Up, PointSide::Left) => 1,
        (PieceLocationKind::Up, PointSide::Right) => 2,
        (PieceLocationKind::DownRight, PointSide::Left) => 1,
        (PieceLocationKind::DownLeft, PointSide::Right) => 1,
        (PieceLocationKind::Right, PointSide::Down) => 1,
        (PieceLocationKind::Right, PointSide::Left) => 2,
        (PieceLocationKind::Down, PointSide::Right) => 1,
        (PieceLocationKind::Down, PointSide::Left) => 2,
        (PieceLocationKind::Left, PointSide::Right) => 1,
        (PieceLocationKind::Left, PointSide::Down) => 2,
        (PieceLocationKind::Center, PointSide::Right) => 1,
        (PieceLocationKind::Center, PointSide::Down) => 2,
        (PieceLocationKind::Center, PointSide::Left) => 3,
        _ => 0,
    }
}

/// In a grid of rows of `width`, the cell `col` of row `row` has the index
/// `row * width + col`, and that index leads back to the cell.
pub proof fn lemma_cell_index(row: int, col: int, height: int, width: int)
    requires
        0 <= row < height,
        0 <= col < width,
    ensures
        0 <= row * width + col < height * width,
        (row * width + col) / width == row,
        (row * width + col) % width == col,
{
    assert(0 <= row * width && row * width + width <= height * width) by (nonlinear_arith)
        requires
            0 <= row < height,
            0 < width,
    ;
    lemma_fundamental_div_mod_converse(row * width + col, width, row, col);
}

/// In a grid of rows of `width`, the index `k` below `height * width` names a
/// cell of the grid, and that cell has the index `k`.
pub proof fn lemma_index_cell(k: int, height: int, width: int)
    requires
        0 <= k < height * width,
        0 < width,
    ensures
        0 <= k / width < height,
        0 <= k % width < width,
        (k / width) * width + k % width == k,
{
    lemma_fundamental_div_mod(k, width);
    let q = k / width;
    let r = k % width;
    assert(q * width == width * q) by (nonlinear_arith);
    assert(0 <= q < height) by (nonlinear_arith)
        requires
            0 <= q * width + r < height * width,
            0 <= r < width,
    ;
}

impl PieceLoc {
    /// The place in row `row` and column `col`, both counted from 0.
    pub fn new(row: usize, col: usize) -> (loc: PieceLoc)
        ensures
            loc == (PieceLoc { row, col }),
    {
        PieceLoc { row, col }
    }

    /// The edge above this piece.
    pub fn up_edge(&self) -> (edge: EdgeLoc)
        requires
            self.row > 0,
        ensures
            edge == (EdgeLoc {
                piece: PieceLoc { row: (self.row - 1) as usize, col: self.col },
                side: EdgeSide::Down,
            }),
    {
        EdgeLoc { piece: PieceLoc { row: self.row - 1, col: self.col }, side: EdgeSide::Down }
    }

    /// The edge to the right of this piece.
    pub fn right_edge(&self) -> (edge: EdgeLoc)
        ensures
            edge == (EdgeLoc { piece: *self, side: EdgeSide::Right }),
    {
        EdgeLoc { piece: *self, side: EdgeSide::Right }
    }

    /// The edge below this piece.
    pub fn down_edge(&self) -> (edge: EdgeLoc)
        ensures
            edge == (EdgeLoc { piece: *self, side: EdgeSide::Down }),
    {
        EdgeLoc { piece: *self, side: EdgeSide::Down }
    }

    /// The edge to the left of this piece.
    pub fn left_edge(&self) -> (edge: EdgeLoc)
        requires
            self.col > 0,
        ensures
            edge == (EdgeLoc {
                piece: PieceLoc { row: self.row, col: (self.col - 1) as usize },
                side: EdgeSide::Right,
            }),
    {
        EdgeLoc { piece: PieceLoc { row: self.row, col: self.col - 1 }, side: EdgeSide::Right }
    }

    /// The place above this one.
    pub fn up_piece(&self) -> (loc: PieceLoc)
        requires
            self.row > 0,
        ensures
            loc == (PieceLoc { row: (self.row - 1) as usize, col: self.col }),
    {
        PieceLoc { row: self.row - 1, col: self.col }
    }

    /// The place to the right of this one.
    pub fn right_piece(&self) -> (loc: PieceLoc)
        requires
            self.col < usize::MAX,
        ensures
            loc == (PieceLoc { row: self.row, col: (self.col + 1) as usize }),
    {
        PieceLoc { row: self.row, col: self.col + 1 }
    }

    /// The place below this one.
    pub fn down_piece(&self) -> (loc: PieceLoc)
        requires
            self.row < usize::MAX,
        ensures
            loc == (PieceLoc { row: (self.row + 1) as usize, col: self.col }),
    {
        PieceLoc { row: self.row + 1, col: self.col }
    }

    /// The place to the left of this one.
    pub fn left_piece(&self) -> (loc: PieceLoc)
        requires
            self.col > 0,
        ensures
            loc == (PieceLoc { row: self.row, col: (self.col - 1) as usize }),
    {
        PieceLoc { row: self.row, col: self.col - 1 }
    }
}

impl PointLoc {
    /// The point on the side `side` of the piece at `piece`.
    pub fn new(piece: PieceLoc, side: PointSide) -> (loc: PointLoc)
        ensures
            loc == (PointLoc { piece, side }),
    {
        PointLoc { piece, side }
    }

    /// The point on the upper side of the piece in row `row` and column
    /// `col`.
    pub fn new_up(row: usize, col: usize) -> (loc: PointLoc)
        ensures
            loc == (PointLoc { piece: PieceLoc { row, col }, side: PointSide::Up }),
    {
        PointLoc { piece: PieceLoc::new(row, col), side: PointSide::Up }
    }

    /// The point on the right side of the piece in row `row` and column
    /// `col`.
    pub fn new_right(row: usize, col: usize) -> (loc: PointLoc)
        ensures
            loc == (PointLoc { piece: PieceLoc { row, col }, side: PointSide::Right }),
    {
        PointLoc { piece: PieceLoc::new(row, col), side: PointSide::Right }
    }

    /// The point on the lower side of the piece in row `row` and column
    /// `col`.
    pub fn new_down(row: usize, col: usize) -> (loc: PointLoc)
        ensures
            loc == (PointLoc { piece: PieceLoc { row, col }, side: PointSide::Down }),
    {
        PointLoc { piece: PieceLoc::new(row, col), side: PointSide::Down }
    }

    /// The point on the left side of the piece in row `row` and column
    /// `col`.
    pub fn new_left(row: usize, col: usize) -> (loc: PointLoc)
        ensures
            loc == (PointLoc { piece: PieceLoc { row, col }, side: PointSide::Left }),
    {
        PointLoc { piece: PieceLoc::new(row, col), side: PointSide::Left }
    }
}

impl EdgeLoc {
    /// The edge to the right of the piece in row `row` and column `col`.
    pub fn new_right(row: usize, col: usize) -> (loc: EdgeLoc)
        ensures
            loc == (EdgeLoc { piece: PieceLoc { row, col }, side: EdgeSide::Right }),
    {
        EdgeLoc { piece: PieceLoc::new(row, col), side: EdgeSide::Right }
    }

    /// The edge below the piece in row `row` and column `col`.
    pub fn new_down(row: usize, col: usize) -> (loc: EdgeLoc)
        ensures
            loc == (EdgeLoc { piece: PieceLoc { row, col }, side: EdgeSide::Down }),
    {
        EdgeLoc { piece: PieceLoc::new(row, col), side: EdgeSide::Down }
    }
}

impl SquarePuzzle {
    /// The number of rows.
    pub closed spec fn height(self) -> nat {
        self.rows as nat
    }

    /// The number of columns.
    pub closed spec fn width(self) -> nat {
        self.cols as nat
    }

    /// At least two rows and two columns, an even number of edges, and no
    /// more pieces than the bound allows.
    pub open spec fn valid(self) -> bool {
        &&& self.height() >= 2
        &&& self.width() >= 2
        &&& (self.height() + self.width()) % 2 == 0
        &&& self.height() * self.width() <= MAX_PIECES
    }

    /// The number of edges between pieces side by side.
    pub open spec fn vert_edges(self) -> nat {
        (self.height() * (self.width() - 1)) as nat
    }

    /// The number of edges between pieces one above the other.
    pub open spec fn horz_edges(self) -> nat {
        ((self.height() - 1) * self.width()) as nat
    }

    /// Whether the place lies on the grid.
    pub open spec fn on_grid(self, loc: PieceLoc) -> bool {
        loc.row < self.height() && loc.col < self.width()
    }

    /// Whether the point lies on the grid, on a side where its piece touches
    /// another.
    pub open spec fn point_on_grid(self, loc: PointLoc) -> bool {
        &&& self.on_grid(loc.piece)
        &&& match loc.side {
            PointSide::Up => loc.piece.row > 0,
            PointSide::Right => loc.piece.col + 1 < self.width(),
            PointSide::Down => loc.piece.row + 1 < self.height(),
            PointSide::Left => loc.piece.col > 0,
        }
    }

    /// Whether the edge lies on the grid, between two pieces.
    pub open spec fn edge_on_grid(self, loc: EdgeLoc) -> bool {
        &&& self.on_grid(loc.piece)
        &&& match loc.side {
            EdgeSide::Right => loc.piece.col + 1 < self.width(),
            EdgeSide::Down => loc.piece.row + 1 < self.height(),
        }
    }

    /// The kind of a place: which of the grid's outer rows and columns it
    /// lies in.
    pub open spec fn kind(self, loc: PieceLoc) -> PieceLocationKind {
        if loc.row == 0 {
            if loc.col == 0 {
                PieceLocationKind::UpLeft
            } else if loc.col + 1 == self.width() {
                PieceLocationKind::UpRight
            } else {
                PieceLocationKind::Up
            }
        } else if loc.row + 1 == self.height() {
            if loc.col == 0 {
                PieceLocationKind::DownLeft
            } else if loc.col + 1 == self.width() {
                PieceLocationKind::DownRight
            } else {
                PieceLocationKind::Down
            }
        } else {
            if loc.col == 0 {
                PieceLocationKind::Left
            } else if loc.col + 1 == self.width() {
                PieceLocationKind::Right
            } else {
                PieceLocationKind::Center
            }
        }
    }

    /// The place of the piece with key `key`: pieces are numbered row by row.
    pub open spec fn loc_of_piece(self, key: nat) -> PieceLoc {
        PieceLoc {
            row: (key as int / self.width() as int) as usize,
            col: (key as int % self.width() as int) as usize,
        }
    }

    /// The key of the piece at `loc`.
    pub open spec fn key_of_piece(self, loc: PieceLoc) -> nat {
        (self.width() * loc.row + loc.col) as nat
    }

    /// The place of the edge with key `key`: first the edges between pieces
    /// side by side, row by row, then those between pieces one above the
    /// other.
    pub open spec fn loc_of_edge(self, key: nat) -> EdgeLoc {
        if key < self.vert_edges() {
            EdgeLoc {
                piece: PieceLoc {
                    row: (key as int / (self.width() - 1)) as usize,
                    col: (key as int % (self.width() - 1)) as usize,
                },
                side: EdgeSide::Right,
            }
        } else {
            EdgeLoc {
                piece: PieceLoc {
                    row: ((key - self.vert_edges()) / self.width() as int) as usize,
                    col: ((key - self.vert_edges()) % self.width() as int) as usize,
                },
                side: EdgeSide::Down,
            }
        }
    }

    /// The key of the edge at `loc`.
    pub open spec fn key_of_edge(self, loc: EdgeLoc) -> nat {
        match loc.side {
            EdgeSide::Right => (loc.piece.row * (self.width() - 1) + loc.piece.col) as nat,
            EdgeSide::Down => (self.vert_edges() + loc.piece.row * self.width()
                + loc.piece.col) as nat,
        }
    }

    /// The place of the point with key `key`: the two points of edge `e` have
    /// the keys `2 * e`, on the piece the edge is named from, and `2 * e + 1`,
    /// on the piece across.
    pub open spec fn loc_of_point(self, key: nat) -> PointLoc {
        let edge = self.loc_of_edge(key / 2);
        let first = key % 2 == 0;
        match edge.side {
            EdgeSide::Right => if first {
                PointLoc { piece: edge.piece, side: PointSide::Right }
            } else {
                PointLoc {
                    piece: PieceLoc { row: edge.piece.row, col: (edge.piece.col + 1) as usize },
                    side: PointSide::Left,
                }
            },
            EdgeSide::Down => if first {
                PointLoc { piece: edge.piece, side: PointSide::Down }
            } else {
                PointLoc {
                    piece: PieceLoc { row: (edge.piece.row + 1) as usize, col: edge.piece.col },
                    side: PointSide::Up,
                }
            },
        }
    }

    /// The edge that the point at `loc` lies at.
    pub open spec fn edge_at(self, loc: PointLoc) -> EdgeLoc {
        match loc.side {
            PointSide::Up => EdgeLoc {
                piece: PieceLoc { row: (loc.piece.row - 1) as usize, col: loc.piece.col },
                side: EdgeSide::Down,
            },
            PointSide::Right => EdgeLoc { piece: loc.piece, side: EdgeSide::Right },
            PointSide::Down => EdgeLoc { piece: loc.piece, side: EdgeSide::Down },
            PointSide::Left => EdgeLoc {
                piece: PieceLoc { row: loc.piece.row, col: (loc.piece.col - 1) as usize },
                side: EdgeSide::Right,
            },
        }
    }

    /// The key of the point at `loc`.
    pub open spec fn key_of_point(self, loc: PointLoc) -> nat {
        let edge = self.key_of_edge(self.edge_at(loc));
        match loc.side {
            PointSide::Right | PointSide::Down => edge * 2,
            PointSide::Left | PointSide::Up => edge * 2 + 1,
        }
    }

    /// The point across the edge from the point at `loc`.
    pub open spec fn across(self, loc: PointLoc) -> PointLoc {
        match loc.side {
            PointSide::Up => PointLoc {
                piece: PieceLoc { row: (loc.piece.row - 1) as usize, col: loc.piece.col },
                side: PointSide::Down,
            },
            PointSide::Right => PointLoc {
                piece: PieceLoc { row: loc.piece.row, col: (loc.piece.col + 1) as usize },
                side: PointSide::Left,
            },
            PointSide::Down => PointLoc {
                piece: PieceLoc { row: (loc.piece.row + 1) as usize, col: loc.piece.col },
                side: PointSide::Up,
            },
            PointSide::Left => PointLoc {
                piece: PieceLoc { row: loc.piece.row, col: (loc.piece.col - 1) as usize },
                side: PointSide::Right,
            },
        }
    }

    /// The side on which the walk around the piece at `loc` starts.
    pub open spec fn start_side(self, loc: PieceLoc) -> PointSide {
        if loc.row == 0 {
            PointSide::Down
        } else {
            PointSide::Up
        }
    }

    /// Grids of the same size are the same puzzle.
    pub proof fn lemma_same_size(self, other: SquarePuzzle)
        requires
            self.height() == other.height(),
            self.width() == other.width(),
        ensures
            self == other,
    {
    }

    /// The sizes of a valid grid: there are fewer edges than twice the
    /// pieces, and every count fits the machine.
    pub proof fn lemma_sizes_fit(self)
        requires
            self.valid(),
        ensures
            self.vert_edges() + self.height() == self.height() * self.width(),
            self.horz_edges() + self.width() == self.height() * self.width(),
            self.vert_edges() == self.height() * (self.width() - 1),
            self.horz_edges() == (self.height() - 1) * self.width(),
            2 * (self.vert_edges() + self.horz_edges()) < 4 * MAX_PIECES,
            self.height() <= MAX_PIECES,
            self.width() <= MAX_PIECES,
    {
        let h = self.height() as int;
        let w = self.width() as int;
        assert(h * (w - 1) + h == h * w && (h - 1) * w + w == h * w && h * (w - 1) >= 0 && (h
            - 1) * w >= 0 && h <= h * w && w <= h * w) by (nonlinear_arith)
            requires
                h >= 2,
                w >= 2,
        ;
    }

    /// Keys and places of pieces stand for each other.
    pub proof fn lemma_piece_key_loc(self, key: nat)
        requires
            self.valid(),
            key < self.height() * self.width(),
        ensures
            self.on_grid(self.loc_of_piece(key)),
            self.key_of_piece(self.loc_of_piece(key)) == key,
    {
        lemma_index_cell(key as int, self.height() as int, self.width() as int);
        let q = key as int / self.width() as int;
        assert(self.width() * q == q * self.width()) by (nonlinear_arith);
    }

    /// Places and keys of pieces stand for each other.
    pub proof fn lemma_piece_loc_key(self, loc: PieceLoc)
        requires
            self.valid(),
            self.on_grid(loc),
        ensures
            self.key_of_piece(loc) < self.height() * self.width(),
            self.loc_of_piece(self.key_of_piece(loc)) == loc,
    {
        lemma_cell_index(
            loc.row as int,
            loc.col as int,
            self.height() as int,
            self.width() as int,
        );
        assert(self.width() * loc.row == loc.row * self.width()) by (nonlinear_arith);
    }

    /// Keys and places of edges stand for each other.
    pub proof fn lemma_edge_key_loc(self, key: nat)
        requires
            self.valid(),
            key < self.vert_edges() + self.horz_edges(),
        ensures
            self.edge_on_grid(self.loc_of_edge(key)),
            self.key_of_edge(self.loc_of_edge(key)) == key,
    {
        if key < self.vert_edges() {
            lemma_index_cell(key as int, self.height() as int, self.width() - 1);
        } else {
            lemma_index_cell(key - self.vert_edges(), self.height() - 1, self.width() as int);
        }
    }

    /// Places and keys of edges stand for each other.
    pub proof fn lemma_edge_loc_key(self, loc: EdgeLoc)
        requires
            self.valid(),
            self.edge_on_grid(loc),
        ensures
            self.key_of_edge(loc) < self.vert_edges() + self.horz_edges(),
            self.loc_of_edge(self.key_of_edge(loc)) == loc,
    {
        match loc.side {
            EdgeSide::Right => {
                lemma_cell_index(
                    loc.piece.row as int,
                    loc.piece.col as int,
                    self.height() as int,
                    self.width() - 1,
                );
            },
            EdgeSide::Down => {
                lemma_cell_index(
                    loc.piece.row as int,
                    loc.piece.col as int,
                    self.height() - 1,
                    self.width() as int,
                );
            },
        }
    }

    /// Keys and places of points stand for each other.
    pub proof fn lemma_point_key_loc(self, key: nat)
        requires
            self.valid(),
            key < 2 * (self.vert_edges() + self.horz_edges()),
        ensures
            self.point_on_grid(self.loc_of_point(key)),
            self.key_of_point(self.loc_of_point(key)) == key,
            self.edge_at(self.loc_of_point(key)) == self.loc_of_edge(key / 2),
    {
        self.lemma_edge_key_loc(key / 2);
    }

    /// Places and keys of points stand for each other.
    pub proof fn lemma_point_loc_key(self, loc: PointLoc)
        requires
            self.valid(),
            self.point_on_grid(loc),
        ensures
            self.key_of_point(loc) < 2 * (self.vert_edges() + self.horz_edges()),
            self.loc_of_point(self.key_of_point(loc)) == loc,
            self.edge_on_grid(self.edge_at(loc)),
            self.key_of_point(loc) / 2 == self.key_of_edge(self.edge_at(loc)),
    {
        self.lemma_edge_loc_key(self.edge_at(loc));
    }
}

/// The letter that stands for a row: `a` for the first.
pub open spec fn row_letter(row: nat) -> char {
    ('a' as u8 + row) as char
}

/// The digit that stands for a column: `1` for the first.
pub open spec fn col_digit(col: nat) -> char {
    ('1' as u8 + col) as char
}

/// The sign that stands for the side of a point.
pub open spec fn point_sign(side: PointSide) -> char {
    match side {
        PointSide::Up => '^',
        PointSide::Right => '>',
        PointSide::Down => 'v',
        PointSide::Left => '<',
    }
}

/// The sign that stands for the side of an edge.
pub open spec fn edge_sign(side: EdgeSide) -> char {
    match side {
        EdgeSide::Right => '|',
        EdgeSide::Down => '_',
    }
}

/// The letter of a row, of which there are 26.
pub fn row_char(row: usize) -> (c: char)
    requires
        row < 26,
    ensures
        c == row_letter(row as nat),
{
    let code: u8 = 97 + row as u8;
    code as char
}

/// The digit of a column, of which there are 9.
pub fn col_char(col: usize) -> (c: char)
    requires
        col < 9,
    ensures
        c == col_digit(col as nat),
{
    let code: u8 = 49 + col as u8;
    code as char
}

impl SquarePuzzle {
    /// Whether a grid of `rows` by `cols` pieces is a puzzle: at least two
    /// each way, an even sum, and no more pieces than the bound allows.
    pub fn fits(rows: usize, cols: usize) -> (yes: bool)
        ensures
            yes == (rows >= 2 && cols >= 2 && (rows + cols) % 2 == 0 && rows * cols <= MAX_PIECES),
    {
        if rows < 2 || cols < 2 || rows > MAX_PIECES || cols > MAX_PIECES {
            proof {
                assert(rows >= 2 && cols >= 2 && (rows > MAX_PIECES || cols > MAX_PIECES)
                    ==> rows * cols > MAX_PIECES) by (nonlinear_arith);
            }
            return false;
        }
        if (rows + cols) % 2 != 0 {
            return false;
        }
        match rows.checked_mul(cols) {
            Some(pieces) => pieces <= MAX_PIECES,
            None => false,
        }
    }

    /// The grid puzzle of `rows` by `cols` pieces.
    pub fn new(rows: usize, cols: usize) -> (puzzle: SquarePuzzle)
        requires
            rows >= 2,
            cols >= 2,
            (rows + cols) % 2 == 0,
            rows * cols <= MAX_PIECES,
        ensures
            puzzle.valid(),
            puzzle.height() == rows,
            puzzle.width() == cols,
    {
        SquarePuzzle { rows, cols }
    }

    /// The number of edges between pieces side by side.
    pub fn num_vert_edges(&self) -> (n: usize)
        requires
            self.valid(),
        ensures
            n == self.vert_edges(),
    {
        proof {
            self.lemma_sizes_fit();
        }
        self.rows * (self.cols - 1)
    }

    /// The number of edges between pieces one above the other.
    pub fn num_horz_edges(&self) -> (n: usize)
        requires
            self.valid(),
        ensures
            n == self.horz_edges(),
    {
        proof {
            self.lemma_sizes_fit();
        }
        (self.rows - 1) * self.cols
    }

    /// The last column.
    pub fn last_col(&self) -> (col: usize)
        requires
            self.valid(),
        ensures
            col + 1 == self.width(),
    {
        self.cols - 1
    }

    /// The last row.
    pub fn last_row(&self) -> (row: usize)
        requires
            self.valid(),
        ensures
            row + 1 == self.height(),
    {
        self.rows - 1
    }

    /// The kind of the place `piece`.
    pub fn piece_location_kind(&self, piece: PieceLoc) -> (kind: PieceLocationKind)
        requires
            self.valid(),
            self.on_grid(piece),
        ensures
            kind == self.kind(piece),
    {
        let up = piece.row == 0;
        let down = piece.row == self.last_row();
        let left = piece.col == 0;
        let right = piece.col == self.last_col();
        if up {
            if left {
                PieceLocationKind::UpLeft
            } else if right {
                PieceLocationKind::UpRight
            } else {
                PieceLocationKind::Up
            }
        } else if down {
            if left {
                PieceLocationKind::DownLeft
            } else if right {
                PieceLocationKind::DownRight
            } else {
                PieceLocationKind::Down
            }
        } else {
            if left {
                PieceLocationKind::Left
            } else if right {
                PieceLocationKind::Right
            } else {
                PieceLocationKind::Center
            }
        }
    }

    /// The orbit of the point at `point`.
    pub fn point_orbit(&self, point: PointLoc) -> (orbit_id: u32)
        requires
            self.valid(),
            self.point_on_grid(point),
        ensures
            orbit_id == orbit(self.kind(point.piece), point.side),
            orbit_id < 8,
    {
        match (self.piece_location_kind(point.piece), point.side) {
            (PieceLocationKind::UpLeft, PointSide::Right) => 0,
            (PieceLocationKind::UpLeft, PointSide::Down) => 1,
            (PieceLocationKind::UpRight, PointSide::Down) => 2,
            (PieceLocationKind::UpRight, PointSide::Left) => 3,
            (PieceLocationKind::DownRight, PointSide::Left) => 2,
            (PieceLocationKind::DownRight, PointSide::Up) => 3,
            (PieceLocationKind::DownLeft, PointSide::Up) => 2,
            (PieceLocationKind::DownLeft, PointSide::Right) => 3,
            (PieceLocationKind::Up, PointSide::Right) => 4,
            (PieceLocationKind::Up, PointSide::Down) => 5,
            (PieceLocationKind::Up, PointSide::Left) => 6,
            (PieceLocationKind::Right, PointSide::Down) => 4,
            (PieceLocationKind::Right, PointSide::Left) => 5,
            (PieceLocationKind::Right, PointSide::Up) => 6,
            (PieceLocationKind::Down, PointSide::Left) => 4,
            (PieceLocationKind::Down, PointSide::Up) => 5,
            (PieceLocationKind::Down, PointSide::Right) => 6,
            (PieceLocationKind::Left, PointSide::Up) => 4,
            (PieceLocationKind::Left, PointSide::Right) => 5,
            (PieceLocationKind::Left, PointSide::Down) => 6,
            (PieceLocationKind::Center, _) => 7,
            _ => unreached(),
        }
    }

    /// The place of the piece with key `piece`.
    pub fn piece_loc(&self, piece: PieceKey) -> (loc: PieceLoc)
        requires
            self.valid(),
            piece.0 < self.height() * self.width(),
        ensures
            loc == self.loc_of_piece(piece.0 as nat),
            self.on_grid(loc),
    {
        proof {
            self.lemma_piece_key_loc(piece.0 as nat);
        }
        let row: usize = piece.0 / self.cols;
        let col: usize = piece.0 % self.cols;
        PieceLoc::new(row, col)
    }

    /// The key of the piece at `piece`.
    pub fn piece_key(&self, piece: PieceLoc) -> (key: PieceKey)
        requires
            self.valid(),
            self.on_grid(piece),
        ensures
            key.0 == self.key_of_piece(piece),
            key.0 < self.height() * self.width(),
    {
        proof {
            self.lemma_piece_loc_key(piece);
            assert(self.width() * piece.row >= 0) by (nonlinear_arith);
        }
        PieceKey(self.cols * piece.row + piece.col)
    }

    /// The place of the edge with key `edge`.
    pub fn edge_loc(&self, edge: EdgeKey) -> (loc: EdgeLoc)
        requires
            self.valid(),
            edge.0 < self.vert_edges() + self.horz_edges(),
        ensures
            loc == self.loc_of_edge(edge.0 as nat),
            self.edge_on_grid(loc),
    {
        proof {
            self.lemma_edge_key_loc(edge.0 as nat);
        }
        if edge.0 < self.num_vert_edges() {
            let row: usize = edge.0 / (self.cols - 1);
            let col: usize = edge.0 % (self.cols - 1);
            EdgeLoc::new_right(row, col)
        } else {
            let row: usize = (edge.0 - self.num_vert_edges()) / self.cols;
            let col: usize = (edge.0 - self.num_vert_edges()) % self.cols;
            EdgeLoc::new_down(row, col)
        }
    }

    /// The key of the edge at `edge`.
    pub fn edge_key(&self, edge: EdgeLoc) -> (key: EdgeKey)
        requires
            self.valid(),
            self.edge_on_grid(edge),
        ensures
            key.0 == self.key_of_edge(edge),
            key.0 < self.vert_edges() + self.horz_edges(),
    {
        proof {
            self.lemma_edge_loc_key(edge);
            self.lemma_sizes_fit();
            assert(edge.piece.row * (self.width() - 1) >= 0 && edge.piece.row * self.width() >= 0)
                by (nonlinear_arith)
                requires
                    self.width() >= 2,
            ;
        }
        match edge.side {
            EdgeSide::Right => EdgeKey(edge.piece.row * (self.cols - 1) + edge.piece.col),
            EdgeSide::Down => EdgeKey(
                self.num_vert_edges() + edge.piece.row * self.cols + edge.piece.col,
            ),
        }
    }

    /// The place of the point with key `point`.
    pub fn point_loc(&self, point: PointKey) -> (loc: PointLoc)
        requires
            self.valid(),
            point.0 < 2 * (self.vert_edges() + self.horz_edges()),
        ensures
            loc == self.loc_of_point(point.0 as nat),
            self.point_on_grid(loc),
    {
        let first = point.0 % 2 == 0;
        let edge = self.edge_loc(EdgeKey(point.0 / 2));
        match edge.side {
            EdgeSide::Right => {
                if first {
                    PointLoc::new_right(edge.piece.row, edge.piece.col)
                } else {
                    PointLoc::new_left(edge.piece.row, edge.piece.col + 1)
                }
            },
            EdgeSide::Down => {
                if first {
                    PointLoc::new_down(edge.piece.row, edge.piece.col)
                } else {
                    PointLoc::new_up(edge.piece.row + 1, edge.piece.col)
                }
            },
        }
    }

    /// The key of the point at `point`.
    pub fn point_key(&self, point: PointLoc) -> (key: PointKey)
        requires
            self.valid(),
            self.point_on_grid(point),
        ensures
            key.0 == self.key_of_point(point),
            key.0 < 2 * (self.vert_edges() + self.horz_edges()),
    {
        proof {
            self.lemma_sizes_fit();
        }
        match point.side {
            PointSide::Right => PointKey(
                self.edge_key(EdgeLoc::new_right(point.piece.row, point.piece.col)).0 * 2,
            ),
            PointSide::Left => PointKey(
                self.edge_key(EdgeLoc::new_right(point.piece.row, point.piece.col - 1)).0 * 2 + 1,
            ),
            PointSide::Down => PointKey(
                self.edge_key(EdgeLoc::new_down(point.piece.row, point.piece.col)).0 * 2,
            ),
            PointSide::Up => PointKey(
                self.edge_key(EdgeLoc::new_down(point.piece.row - 1, point.piece.col)).0 * 2 + 1,
            ),
        }
    }
}

impl SquarePuzzle {
    /// What the walk around a piece does to the point at a place on the
    /// grid: the next point lies on the same piece, one step further from the
    /// start or back at it, and in the orbit that follows.
    pub proof fn lemma_step(self, loc: PointLoc)
        requires
            self.valid(),
            self.point_on_grid(loc),
        ensures
            ({
                let kind = self.kind(loc.piece);
                let next = PointLoc { piece: loc.piece, side: next_side(kind, loc.side) };
                let start = PointLoc { piece: loc.piece, side: self.start_side(loc.piece) };
                &&& self.point_on_grid(next)
                &&& self.point_on_grid(start)
                &&& side_rank(kind, loc.side) < side_count(kind)
                &&& side_rank(kind, start.side) == 0
                &&& side_rank(kind, next.side) == if side_rank(kind, loc.side) + 1 == side_count(
                    kind,
                ) {
                    0
                } else {
                    side_rank(kind, loc.side) + 1
                }
                &&& orbit(kind, loc.side) < 8
                &&& orbit(kind, next.side) == next_orbit(orbit(kind, loc.side))
                &&& side_count(kind) == orbit_sides(orbit(kind, loc.side))
            }),
    {
    }
}

impl Puzzle for SquarePuzzle {
    open spec fn wf(&self) -> bool {
        self.valid()
    }

    open spec fn pieces(&self) -> nat {
        self.height() * self.width()
    }

    open spec fn edges(&self) -> nat {
        self.vert_edges() + self.horz_edges()
    }

    open spec fn sides(&self, piece: nat) -> nat {
        side_count(self.kind(self.loc_of_piece(piece)))
    }

    open spec fn anchor(&self, piece: nat) -> nat {
        let loc = self.loc_of_piece(piece);
        self.key_of_point(PointLoc { piece: loc, side: self.start_side(loc) })
    }

    open spec fn next(&self, point: nat) -> nat {
        let loc = self.loc_of_point(point);
        self.key_of_point(
            PointLoc { piece: loc.piece, side: next_side(self.kind(loc.piece), loc.side) },
        )
    }

    open spec fn rank(&self, point: nat) -> nat {
        let loc = self.loc_of_point(point);
        side_rank(self.kind(loc.piece), loc.side)
    }

    open spec fn piece_of(&self, point: nat) -> nat {
        self.key_of_piece(self.loc_of_point(point).piece)
    }

    open spec fn edge_anchor(&self, edge: nat) -> nat {
        edge * 2
    }

    open spec fn mate(&self, point: nat) -> nat {
        self.key_of_point(self.across(self.loc_of_point(point)))
    }

    open spec fn edge_of(&self, point: nat) -> nat {
        point / 2
    }

    open spec fn exchangeable(&self, a: nat, b: nat) -> bool {
        let loc_a = self.loc_of_point(a);
        let loc_b = self.loc_of_point(b);
        orbit(self.kind(loc_a.piece), loc_a.side) == orbit(self.kind(loc_b.piece), loc_b.side)
    }

    open spec fn printable(&self) -> bool {
        self.height() <= 26 && self.width() <= 9
    }

    /// Row letter, column digit and the sign of the side: `b3>` is the point
    /// on the right side of the piece in the second row and third column.
    open spec fn point_text(&self, point: nat) -> Seq<char> {
        let loc = self.loc_of_point(point);
        seq![row_letter(loc.piece.row as nat), col_digit(loc.piece.col as nat), point_sign(loc.side)]
    }

    /// Row letter, column digit and the sign of the side, of the piece that
    /// the edge is named from: `b3|` is the edge to the right of the piece in
    /// the second row and third column.
    open spec fn edge_text(&self, edge: nat) -> Seq<char> {
        let loc = self.loc_of_edge(edge);
        seq![row_letter(loc.piece.row as nat), col_digit(loc.piece.col as nat), edge_sign(loc.side)]
    }

    fn is_printable(&self) -> (yes: bool) {
        self.rows <= 26 && self.cols <= 9
    }

    fn num_pieces(&self) -> (n: usize) {
        self.rows * self.cols
    }

    fn num_edges(&self) -> (n: usize) {
        proof {
            self.lemma_sizes_fit();
        }
        self.num_vert_edges() + self.num_horz_edges()
    }

    fn num_points(&self) -> (n: usize) {
        proof {
            self.lemma_sizes_fit();
        }
        2 * self.num_edges()
    }

    fn arbitrary_point_on_piece(&self, piece: PieceKey) -> (point: PointKey) {
        let piece = self.piece_loc(piece);
        let side = if piece.row == 0 {
            PointSide::Down
        } else {
            PointSide::Up
        };
        self.point_key(PointLoc::new(piece, side))
    }

    fn next_point_on_piece(&self, point: PointKey) -> (next: PointKey) {
        let point = self.point_loc(point);
        let next_side = match (self.piece_location_kind(point.piece), point.side) {
            (PieceLocationKind::UpLeft, PointSide::Right) => PointSide::Down,
            (PieceLocationKind::UpLeft, PointSide::Down) => PointSide::Right,
            (PieceLocationKind::UpRight, PointSide::Down) => PointSide::Left,
            (PieceLocationKind::UpRight, PointSide::Left) => PointSide::Down,
            (PieceLocationKind::DownRight, PointSide::Left) => PointSide::Up,
            (PieceLocationKind::DownRight, PointSide::Up) => PointSide::Left,
            (PieceLocationKind::DownLeft, PointSide::Up) => PointSide::Right,
            (PieceLocationKind::DownLeft, PointSide::Right) => PointSide::Up,
            (PieceLocationKind::Up, PointSide::Right) => PointSide::Down,
            (PieceLocationKind::Up, PointSide::Down) => PointSide::Left,
            (PieceLocationKind::Up, PointSide::Left) => PointSide::Right,
            (PieceLocationKind::Right, PointSide::Down) => PointSide::Left,
            (PieceLocationKind::Right, PointSide::Left) => PointSide::Up,
            (PieceLocationKind::Right, PointSide::Up) => PointSide::Down,
            (PieceLocationKind::Down, PointSide::Left) => PointSide::Up,
            (PieceLocationKind::Down, PointSide::Up) => PointSide::Right,
            (PieceLocationKind::Down, PointSide::Right) => PointSide::Left,
            (PieceLocationKind::Left, PointSide::Up) => PointSide::Right,
            (PieceLocationKind::Left, PointSide::Right) => PointSide::Down,
            (PieceLocationKind::Left, PointSide::Down) => PointSide::Up,
            (PieceLocationKind::Center, PointSide::Up) => PointSide::Right,
            (PieceLocationKind::Center, PointSide::Right) => PointSide::Down,
            (PieceLocationKind::Center, PointSide::Down) => PointSide::Left,
            (PieceLocationKind::Center, PointSide::Left) => PointSide::Up,
            _ => unreached(),
        };
        self.point_key(PointLoc::new(point.piece, next_side))
    }

    fn point_piece(&self, point: PointKey) -> (piece: PieceKey) {
        self.piece_key(self.point_loc(point).piece)
    }

    fn arbitrary_point_on_edge(&self, edge: EdgeKey) -> (point: PointKey) {
        proof {
            self.lemma_edge_key_loc(edge.0 as nat);
        }
        let edge = self.edge_loc(edge);
        let side = match edge.side {
            EdgeSide::Right => PointSide::Right,
            EdgeSide::Down => PointSide::Down,
        };
        self.point_key(PointLoc::new(edge.piece, side))
    }

    fn other_point_on_edge(&self, point: PointKey) -> (other: PointKey) {
        let point = self.point_loc(point);
        let other_point = match point.side {
            PointSide::Up => PointLoc::new_down(point.piece.row - 1, point.piece.col),
            PointSide::Right => PointLoc::new_left(point.piece.row, point.piece.col + 1),
            PointSide::Down => PointLoc::new_up(point.piece.row + 1, point.piece.col),
            PointSide::Left => PointLoc::new_right(point.piece.row, point.piece.col - 1),
        };
        self.point_key(other_point)
    }

    fn point_edge(&self, point: PointKey) -> (edge: EdgeKey) {
        let key = point.0;
        let point = self.point_loc(point);
        let edge = match point.side {
            PointSide::Up => EdgeLoc::new_down(point.piece.row - 1, point.piece.col),
            PointSide::Right => EdgeLoc::new_right(point.piece.row, point.piece.col),
            PointSide::Down => EdgeLoc::new_down(point.piece.row, point.piece.col),
            PointSide::Left => EdgeLoc::new_right(point.piece.row, point.piece.col - 1),
        };
        proof {
            self.lemma_point_key_loc(key as nat);
        }
        self.edge_key(edge)
    }

    fn can_exchange(&self, point_a: PointKey, point_b: PointKey) -> (yes: bool) {
        let point_a = self.point_loc(point_a);
        let point_b = self.point_loc(point_b);
        self.point_orbit(point_a) == self.point_orbit(point_b)
    }

    fn format_point(&self, point: PointKey) -> (text: String) {
        let point = self.point_loc(point);
        let side_char = match point.side {
            PointSide::Up => '^',
            PointSide::Right => '>',
            PointSide::Down => 'v',
            PointSide::Left => '<',
        };
        let mut chars: Vec<char> = Vec::new();
        chars.push(row_char(point.piece.row));
        chars.push(col_char(point.piece.col));
        chars.push(side_char);
        string_of(&chars)
    }

    fn format_edge(&self, edge: EdgeKey) -> (text: String) {
        let edge = self.edge_loc(edge);
        let side_char = match edge.side {
            EdgeSide::Right => '|',
            EdgeSide::Down => '_',
        };
        let mut chars: Vec<char> = Vec::new();
        chars.push(row_char(edge.piece.row));
        chars.push(col_char(edge.piece.col));
        chars.push(side_char);
        string_of(&chars)
    }

    proof fn lemma_sizes(&self) {
        self.lemma_sizes_fit();
    }

    proof fn lemma_anchor(&self, piece: nat) {
        self.lemma_piece_key_loc(piece);
        let loc = self.loc_of_piece(piece);
        let start = PointLoc { piece: loc, side: self.start_side(loc) };
        self.lemma_point_loc_key(start);
    }

    proof fn lemma_next(&self, point: nat) {
        self.lemma_point_key_loc(point);
        let loc = self.loc_of_point(point);
        let next = PointLoc { piece: loc.piece, side: next_side(self.kind(loc.piece), loc.side) };
        self.lemma_point_loc_key(next);
        self.lemma_piece_loc_key(loc.piece);
    }

    proof fn lemma_rank(&self, point: nat) {
        self.lemma_point_key_loc(point);
        let loc = self.loc_of_point(point);
        let next = PointLoc { piece: loc.piece, side: next_side(self.kind(loc.piece), loc.side) };
        let start = PointLoc { piece: loc.piece, side: self.start_side(loc.piece) };
        self.lemma_point_loc_key(next);
        self.lemma_point_loc_key(start);
        self.lemma_piece_loc_key(loc.piece);
    }

    proof fn lemma_rank_injective(&self, a: nat, b: nat) {
        self.lemma_point_key_loc(a);
        self.lemma_point_key_loc(b);
        let loc_a = self.loc_of_point(a);
        let loc_b = self.loc_of_point(b);
        self.lemma_piece_loc_key(loc_a.piece);
        self.lemma_piece_loc_key(loc_b.piece);
    }

    proof fn lemma_edge_anchor(&self, edge: nat) {
    }

    proof fn lemma_mate(&self, point: nat) {
        self.lemma_point_key_loc(point);
    }

    proof fn lemma_edge_points(&self, a: nat, b: nat) {
        self.lemma_mate(a);
    }

    proof fn lemma_exchange_equivalence(&self, a: nat, b: nat, c: nat) {
    }

    proof fn lemma_exchange_next(&self, a: nat, b: nat) {
        self.lemma_point_orbit_step(a);
        self.lemma_point_orbit_step(b);
    }
}

impl SquarePuzzle {
    /// The orbit of a point tells the orbit of the point that follows it and
    /// the number of sides of its piece.
    pub proof fn lemma_point_orbit_step(self, point: nat)
        requires
            self.valid(),
            point < 2 * (self.vert_edges() + self.horz_edges()),
        ensures
            ({
                let loc = self.loc_of_point(point);
                let next = self.loc_of_point(self.next(point));
                &&& orbit(self.kind(next.piece), next.side) == next_orbit(
                    orbit(self.kind(loc.piece), loc.side),
                )
                &&& self.sides(self.piece_of(point)) == orbit_sides(
                    orbit(self.kind(loc.piece), loc.side),
                )
            }),
    {
        self.lemma_point_key_loc(point);
        let loc = self.loc_of_point(point);
        let next = PointLoc { piece: loc.piece, side: next_side(self.kind(loc.piece), loc.side) };
        self.lemma_point_loc_key(next);
        self.lemma_piece_loc_key(loc.piece);
    }
}

} // verus!
