//! The terrain grid: a fixed-size rectangular field of cells, each holding
//! a terrain kind, addressed by `x + width * y` in one flat vector.

use vstd::prelude::*;

verus! {

/// Upper bound on the number of cells a grid may hold. Keeping the cell
/// count below this bound keeps every cumulative cost and queue priority
/// computed by the search comfortably inside `u64`, and every linear cell
/// index inside `usize`.
pub const MAX_GRID_CELLS: usize = 16777216;

/// A cell coordinate: `x` counts columns from the left edge, `y` counts
/// rows from the top edge, both 0-indexed.
#[derive(Clone, Copy, PartialEq, Eq, Structural, Debug)]
pub struct Coord {
    pub x: u32,
    pub y: u32,
}

/// The closed set of terrain kinds a cell may hold.
#[derive(Clone, Copy, PartialEq, Eq, Structural, Debug)]
pub enum TerrainKind {
    Open,
    Blocked,
    Light,
    Medium,
    Heavy,
}

/// Step cost of entering a cell of the given kind. `Blocked` cells are
/// never entered by a search, so their nominal cost of 1 is never charged.
pub open spec fn spec_kind_cost(k: TerrainKind) -> u64 {
    match k {
        TerrainKind::Heavy => 8,
        TerrainKind::Medium => 4,
        TerrainKind::Light => 2,
        _ => 1,
    }
}

/// The cost model: terrain kind to integer step cost.
pub fn kind_cost(k: TerrainKind) -> (c: u64)
    ensures
        c == spec_kind_cost(k),
{
    match k {
        TerrainKind::Heavy => 8,
        TerrainKind::Medium => 4,
        TerrainKind::Light => 2,
        _ => 1,
    }
}

/// Terrain kind denoted by one character of a map source row; any
/// character outside the five digits is read as a wall.
pub open spec fn spec_kind_of_char(c: char) -> TerrainKind {
    if c == '0' {
        TerrainKind::Open
    } else if c == '1' {
        TerrainKind::Blocked
    } else if c == '2' {
        TerrainKind::Light
    } else if c == '3' {
        TerrainKind::Medium
    } else if c == '4' {
        TerrainKind::Heavy
    } else {
        TerrainKind::Blocked
    }
}

/// Decodes one character of a map source row.
pub fn kind_of_char(c: char) -> (k: TerrainKind)
    ensures
        k == spec_kind_of_char(c),
{
    match c {
        '0' => TerrainKind::Open,
        '1' => TerrainKind::Blocked,
        '2' => TerrainKind::Light,
        '3' => TerrainKind::Medium,
        '4' => TerrainKind::Heavy,
        _ => TerrainKind::Blocked,
    }
}

/// Decodes one row of a map source, character by character.
pub fn parse_map_row(chars: &Vec<char>) -> (row: Vec<TerrainKind>)
    ensures
        row@.len() == chars@.len(),
        forall|i: int| 0 <= i < chars@.len() ==> row@[i] == spec_kind_of_char(chars@[i]),
{
    let mut row: Vec<TerrainKind> = Vec::new();
    let mut k: usize = 0;
    while k < chars.len()
        invariant
            k <= chars@.len(),
            row@.len() == k,
            forall|i: int| 0 <= i < k ==> row@[i] == spec_kind_of_char(chars@[i]),
        decreases chars@.len() - k,
    {
        row.push(kind_of_char(chars[k]));
        k = k + 1;
    }
    row
}

/// The Manhattan distance `|ax - bx| + |ay - by|`, the search heuristic.
pub open spec fn spec_manhattan(a: Coord, b: Coord) -> int {
    (if a.x >= b.x {
        a.x - b.x
    } else {
        b.x - a.x
    }) + (if a.y >= b.y {
        a.y - b.y
    } else {
        b.y - a.y
    })
}

/// Computes the Manhattan distance between two coordinates.
pub fn manhattan_distance(a: Coord, b: Coord) -> (d: u64)
    ensures
        d == spec_manhattan(a, b),
{
    let dx: u64 = if a.x >= b.x {
        (a.x - b.x) as u64
    } else {
        (b.x - a.x) as u64
    };
    let dy: u64 = if a.y >= b.y {
        (a.y - b.y) as u64
    } else {
        (b.y - a.y) as u64
    };
    dx + dy
}

/// The terrain grid: a flat vector of `width * height` terrain kinds.
/// A cell `(x, y)` lives at linear index `x + width * y`; that indexing
/// scheme is the grid's sole addressing contract. Width and height are
/// fixed at construction.
pub struct TerrainGrid {
    width: u32,
    height: u32,
    cells: Vec<TerrainKind>,
}

impl TerrainGrid {
    /// Columns of the grid.
    pub closed spec fn spec_width(self) -> u32 {
        self.width
    }

    /// Rows of the grid.
    pub closed spec fn spec_height(self) -> u32 {
        self.height
    }

    /// Number of cells.
    pub open spec fn spec_area(self) -> int {
        self.spec_width() * self.spec_height()
    }

    /// Well-formedness: the cell vector covers the rectangle exactly, and
    /// the rectangle is small enough that costs and indices cannot wrap.
    pub closed spec fn wf(self) -> bool {
        self.cells@.len() == self.spec_area() && self.spec_area() <= MAX_GRID_CELLS
    }

    /// Whether the integer pair `(x, y)` addresses a cell.
    pub open spec fn in_bounds_xy(self, x: int, y: int) -> bool {
        0 <= x < self.spec_width() && 0 <= y < self.spec_height()
    }

    /// Terrain kind at the cell addressed by `(x, y)`.
    pub closed spec fn spec_kind_at_xy(self, x: int, y: int) -> TerrainKind {
        self.cells@[x + self.spec_width() * y]
    }

    /// An in-bounds cell that may be entered.
    pub open spec fn passable_xy(self, x: int, y: int) -> bool {
        self.in_bounds_xy(x, y) && self.spec_kind_at_xy(x, y) != TerrainKind::Blocked
    }

    /// Whether a coordinate addresses a cell.
    pub open spec fn in_bounds(self, c: Coord) -> bool {
        self.in_bounds_xy(c.x as int, c.y as int)
    }

    /// Terrain kind at an in-bounds coordinate.
    pub open spec fn spec_kind_at(self, c: Coord) -> TerrainKind {
        self.spec_kind_at_xy(c.x as int, c.y as int)
    }

    /// An in-bounds coordinate that may be entered.
    pub open spec fn passable(self, c: Coord) -> bool {
        self.passable_xy(c.x as int, c.y as int)
    }

    /// Linear storage index of a coordinate.
    pub open spec fn spec_index_of(self, c: Coord) -> int {
        c.x + self.spec_width() * c.y
    }

    /// The linear index of an in-bounds coordinate stays inside the grid.
    pub proof fn lemma_index_of_in_range(self, c: Coord)
        requires
            self.in_bounds(c),
        ensures
            0 <= self.spec_index_of(c) < self.spec_area(),
    {
        let x = c.x as int;
        let y = c.y as int;
        let w = self.spec_width() as int;
        let h = self.spec_height() as int;
        assert(0 <= x + w * y < w * h) by (nonlinear_arith)
            requires
                0 <= x < w,
                0 <= y < h,
        {}
    }

    /// Distinct in-bounds coordinates have distinct linear indices.
    pub proof fn lemma_index_of_injective(self, a: Coord, b: Coord)
        requires
            self.in_bounds(a),
            self.in_bounds(b),
            self.spec_index_of(a) == self.spec_index_of(b),
        ensures
            a == b,
    {
        let w = self.spec_width() as int;
        assert(a.y == b.y) by (nonlinear_arith)
            requires
                0 <= (a.x as int) && (a.x as int) < w,
                0 <= (b.x as int) && (b.x as int) < w,
                a.x + w * a.y == b.x + w * b.y,
        {}
    }

    /// Builds a grid from its dimensions and the flat cell vector, read
    /// row by row. Returns `None` when the vector does not cover the
    /// rectangle exactly or the rectangle exceeds `MAX_GRID_CELLS`.
    pub fn new(width: u32, height: u32, kinds: Vec<TerrainKind>) -> (result: Option<TerrainGrid>)
        ensures
            match result {
                Some(g) => {
                    &&& g.wf()
                    &&& g.spec_width() == width
                    &&& g.spec_height() == height
                    &&& kinds@.len() == width * height
                    &&& width * height <= MAX_GRID_CELLS
                    &&& forall|c: Coord|
                        g.in_bounds(c) ==> #[trigger] g.spec_kind_at(c) == kinds@[c.x + width
                            * c.y]
                },
                None => !(kinds@.len() == width * height && width * height <= MAX_GRID_CELLS),
            },
    {
        proof {
            assert((width as int) * (height as int) < 0x1_0000_0000_0000_0000int) by (nonlinear_arith)
                requires
                    width <= u32::MAX,
                    height <= u32::MAX,
            {}
        }
        let area: u64 = (width as u64) * (height as u64);
        if area <= (MAX_GRID_CELLS as u64) && (kinds.len() as u64) == area {
            Some(TerrainGrid { width, height, cells: kinds })
        } else {
            None
        }
    }

    /// Columns of the grid.
    pub fn width(&self) -> (w: u32)
        ensures
            w == self.spec_width(),
    {
        self.width
    }

    /// Rows of the grid.
    pub fn height(&self) -> (h: u32)
        ensures
            h == self.spec_height(),
    {
        self.height
    }

    /// Number of cells.
    pub fn cell_count(&self) -> (n: usize)
        requires
            self.wf(),
        ensures
            n == self.spec_area(),
            n <= MAX_GRID_CELLS,
    {
        self.cells.len()
    }

    /// Linear storage index of an in-bounds coordinate.
    pub fn index_of(&self, c: Coord) -> (i: usize)
        requires
            self.wf(),
            self.in_bounds(c),
        ensures
            i == self.spec_index_of(c),
            i < self.spec_area(),
            self.spec_area() <= MAX_GRID_CELLS,
    {
        proof {
            self.lemma_index_of_in_range(c);
        }
        (c.x as usize) + (self.width as usize) * (c.y as usize)
    }

    /// Terrain kind at a coordinate; `None` when it lies outside the grid.
    pub fn terrain_at(&self, c: Coord) -> (r: Option<TerrainKind>)
        requires
            self.wf(),
        ensures
            r == if self.in_bounds(c) {
                Some(self.spec_kind_at(c))
            } else {
                None::<TerrainKind>
            },
    {
        if c.x < self.width && c.y < self.height {
            let i = self.index_of(c);
            Some(self.cells[i])
        } else {
            None
        }
    }

    /// Whether a coordinate addresses a cell that may be entered.
    pub fn is_passable(&self, c: Coord) -> (r: bool)
        requires
            self.wf(),
        ensures
            r == self.passable(c),
    {
        match self.terrain_at(c) {
            Some(k) => k != TerrainKind::Blocked,
            None => false,
        }
    }

    /// Rewrites the terrain kind of one cell; a no-op when the coordinate
    /// lies outside the grid.
    pub fn set_terrain(&mut self, c: Coord, kind: TerrainKind)
        requires
            old(self).wf(),
        ensures
            final(self).wf(),
            final(self).spec_width() == old(self).spec_width(),
            final(self).spec_height() == old(self).spec_height(),
            old(self).in_bounds(c) ==> forall|c2: Coord|
                old(self).in_bounds(c2) ==> #[trigger] final(self).spec_kind_at(c2) == (if c2 == c {
                    kind
                } else {
                    old(self).spec_kind_at(c2)
                }),
            !old(self).in_bounds(c) ==> *final(self) == *old(self),
    {
        if c.x < self.width && c.y < self.height {
            let i = self.index_of(c);
            self.cells.set(i, kind);
            proof {
                assert forall|c2: Coord| old(self).in_bounds(c2) implies #[trigger] self
                    .spec_kind_at(c2) == (if c2 == c {
                    kind
                } else {
                    old(self).spec_kind_at(c2)
                }) by {
                    if c2 == c {
                    } else {
                        if self.spec_index_of(c2) == self.spec_index_of(c) {
                            old(self).lemma_index_of_injective(c2, c);
                        }
                        old(self).lemma_index_of_in_range(c2);
                    }
                }
            }
        }
    }

    /// Traversal cost of a coordinate under the cost model; a cell outside
    /// the grid is charged the default cost of 1, though the search never
    /// charges it because such cells are never offered as neighbors.
    pub open spec fn spec_traversal_cost(self, c: Coord) -> u64 {
        if self.in_bounds(c) {
            spec_kind_cost(self.spec_kind_at(c))
        } else {
            1
        }
    }

    /// Traversal cost of a coordinate.
    pub fn traversal_cost(&self, c: Coord) -> (t: u64)
        requires
            self.wf(),
        ensures
            t == self.spec_traversal_cost(c),
            1 <= t <= 8,
    {
        match self.terrain_at(c) {
            Some(k) => kind_cost(k),
            None => 1,
        }
    }

    /// One candidate neighbor, kept when it is in bounds and not blocked.
    pub open spec fn keep_xy(self, x: int, y: int) -> Seq<Coord> {
        if self.passable_xy(x, y) {
            seq![Coord { x: x as u32, y: y as u32 }]
        } else {
            Seq::empty()
        }
    }

    /// The neighbors of a coordinate: the four orthogonal cells in the
    /// fixed order north, south, west, east, with blocked and out-of-range
    /// cells left out.
    pub open spec fn spec_neighbors(self, c: Coord) -> Seq<Coord> {
        self.keep_xy(c.x as int, c.y - 1) + self.keep_xy(c.x as int, c.y + 1) + self.keep_xy(
            c.x - 1,
            c.y as int,
        ) + self.keep_xy(c.x + 1, c.y as int)
    }

    /// Every passable cell one orthogonal step away from `c` appears among
    /// the neighbors of `c`.
    pub proof fn lemma_neighbors_complete(self, c: Coord, n: Coord)
        requires
            self.passable(n),
            spec_manhattan(c, n) == 1,
        ensures
            self.spec_neighbors(c).contains(n),
    {
        let k1 = self.keep_xy(c.x as int, c.y - 1);
        let k2 = self.keep_xy(c.x as int, c.y + 1);
        let k3 = self.keep_xy(c.x - 1, c.y as int);
        let k4 = self.keep_xy(c.x + 1, c.y as int);
        let sn = self.spec_neighbors(c);
        if n.y < c.y {
            assert(n.x == c.x && n.y == c.y - 1);
            assert(k1 =~= seq![n]);
            assert(sn[0] == n);
        } else if n.y > c.y {
            assert(n.x == c.x && n.y == c.y + 1);
            assert(k2 =~= seq![n]);
            assert(sn[k1.len() as int] == n);
        } else if n.x < c.x {
            assert(n.y == c.y && n.x == c.x - 1);
            assert(k3 =~= seq![n]);
            assert(sn[(k1.len() + k2.len()) as int] == n);
        } else {
            assert(n.y == c.y && n.x == c.x + 1);
            assert(k4 =~= seq![n]);
            assert(sn[(k1.len() + k2.len() + k3.len()) as int] == n);
        }
    }

    /// Collects the passable orthogonal neighbors of a coordinate, in the
    /// order north, south, west, east.
    pub fn neighbors(&self, c: Coord) -> (r: Vec<Coord>)
        requires
            self.wf(),
        ensures
            r@ == self.spec_neighbors(c),
            forall|j: int|
                0 <= j < r@.len() ==> self.passable(#[trigger] r@[j]) && spec_manhattan(
                    c,
                    r@[j],
                ) == 1,
    {
        let mut out: Vec<Coord> = Vec::new();
        if c.y > 0 {
            let n = Coord { x: c.x, y: c.y - 1 };
            if self.is_passable(n) {
                out.push(n);
            }
        }
        assert(out@ =~= self.keep_xy(c.x as int, c.y - 1));
        if c.y < u32::MAX {
            let n = Coord { x: c.x, y: c.y + 1 };
            if self.is_passable(n) {
                out.push(n);
            }
        }
        assert(out@ =~= self.keep_xy(c.x as int, c.y - 1) + self.keep_xy(c.x as int, c.y + 1));
        if c.x > 0 {
            let n = Coord { x: c.x - 1, y: c.y };
            if self.is_passable(n) {
                out.push(n);
            }
        }
        assert(out@ =~= self.keep_xy(c.x as int, c.y - 1) + self.keep_xy(c.x as int, c.y + 1)
            + self.keep_xy(c.x - 1, c.y as int));
        if c.x < u32::MAX {
            let n = Coord { x: c.x + 1, y: c.y };
            if self.is_passable(n) {
                out.push(n);
            }
        }
        assert(out@ =~= self.spec_neighbors(c));
        out
    }
}

} // verus!
