//! The tile grid: a rectangle of small tile ids in which `0` is open floor
//! and every other id is a wall variant. Every cell outside the rectangle
//! counts as solid.

use vstd::prelude::*;

verus! {

/// Tile id of open floor.
pub const FLOOR_TILE: u8 = 0;

/// Tile id reported for every cell outside the grid.
pub const SOLID_TILE: u8 = 1;

/// Mathematical model of a [`GameMap`]: `tiles[y][x]` is the id of cell `(x, y)`.
pub struct MapView {
    pub width: nat,
    pub height: nat,
    pub tiles: Seq<Seq<u8>>,
}

impl MapView {
    /// The grid is a rectangle: `height` rows of `width` entries each.
    pub open spec fn well_formed(self) -> bool {
        &&& self.tiles.len() == self.height
        &&& forall|y: int| 0 <= y < self.height ==> (#[trigger] self.tiles[y]).len() == self.width
    }

    /// Whether `(x, y)` names a cell of the grid.
    pub open spec fn contains(self, x: int, y: int) -> bool {
        0 <= x < self.width && 0 <= y < self.height
    }

    /// The tile id at `(x, y)`, for every pair of integers: cells outside the
    /// grid are solid.
    pub open spec fn tile(self, x: int, y: int) -> u8 {
        if self.contains(x, y) {
            self.tiles[y][x]
        } else {
            SOLID_TILE
        }
    }

    /// Whether the cell `(x, y)` blocks movement and rays.
    pub open spec fn is_wall(self, x: int, y: int) -> bool {
        self.tile(x, y) != FLOOR_TILE
    }

    /// Whether `(x, y)` is a cell of the grid that holds open floor.
    pub open spec fn is_open(self, x: int, y: int) -> bool {
        self.contains(x, y) && self.tiles[y][x] == FLOOR_TILE
    }

    /// The grid with cell `(x, y)` replaced by `tile`; unchanged when the cell
    /// lies outside it.
    pub open spec fn with_tile(self, x: int, y: int, tile: u8) -> MapView {
        if self.contains(x, y) {
            MapView { tiles: self.tiles.update(y, self.tiles[y].update(x, tile)), ..self }
        } else {
            self
        }
    }

    /// After a tile was replaced, its cell holds the new tile and every
    /// other cell, in the grid or out of it, reads as before.
    pub proof fn lemma_with_tile_reads(self, x: int, y: int, tile: u8, px: int, py: int)
        requires
            self.well_formed(),
        ensures
            self.with_tile(x, y, tile).well_formed(),
            self.with_tile(x, y, tile).tile(px, py) == if px == x && py == y && self.contains(x, y) {
                tile
            } else {
                self.tile(px, py)
            },
    {
    }

    /// The grid of the given size in which every cell is open floor.
    pub open spec fn open_floor(width: nat, height: nat) -> MapView {
        MapView {
            width,
            height,
            tiles: Seq::new(height, |y: int| Seq::new(width, |x: int| FLOOR_TILE)),
        }
    }
}

/// A static tile grid with bounds-safe queries.
pub struct GameMap {
    width: usize,
    height: usize,
    tiles: Vec<Vec<u8>>,
}

impl View for GameMap {
    type V = MapView;

    closed spec fn view(&self) -> MapView {
        MapView {
            width: self.width as nat,
            height: self.height as nat,
            tiles: self.tiles.deep_view(),
        }
    }
}

impl GameMap {
    /// Every map that exists is a rectangle whose sides fit the machine.
    #[verifier::type_invariant]
    pub open spec fn inv(self) -> bool {
        &&& self@.well_formed()
        &&& self@.width <= usize::MAX
        &&& self@.height <= usize::MAX
    }

    /// A map of the given size with every cell open.
    pub fn new(width: usize, height: usize) -> (map: GameMap)
        ensures
            map@ == MapView::open_floor(width as nat, height as nat),
            map.inv(),
    {
        let mut tiles: Vec<Vec<u8>> = Vec::new();
        let mut y: usize = 0;
        while y < height
            invariant
                y <= height,
                tiles.len() == y,
                forall|r: int| 0 <= r < y ==> (#[trigger] tiles[r])@ == Seq::new(width as nat, |x: int| FLOOR_TILE),
            decreases height - y,
        {
            let mut row: Vec<u8> = Vec::new();
            let mut x: usize = 0;
            while x < width
                invariant
                    x <= width,
                    row@ == Seq::new(x as nat, |c: int| FLOOR_TILE),
                decreases width - x,
            {
                row.push(FLOOR_TILE);
                x += 1;
            }
            tiles.push(row);
            y += 1;
        }
        let map = GameMap { width, height, tiles };
        assert(map@.tiles =~~= MapView::open_floor(width as nat, height as nat).tiles);
        map
    }

    /// Number of columns.
    pub fn width(&self) -> (w: usize)
        ensures
            w == self@.width,
    {
        self.width
    }

    /// Number of rows.
    pub fn height(&self) -> (h: usize)
        ensures
            h == self@.height,
    {
        self.height
    }

    /// The tile id at `(x, y)`; the solid sentinel for any cell outside the grid.
    pub fn get_tile(&self, x: usize, y: usize) -> (tile: u8)
        ensures
            tile == self@.tile(x as int, y as int),
            !self@.contains(x as int, y as int) ==> tile == SOLID_TILE,
    {
        proof {
            use_type_invariant(self);
        }
        if x >= self.width || y >= self.height {
            return SOLID_TILE;
        }
        assert(self@.tiles[y as int] =~= self.tiles[y as int]@);
        self.tiles[y][x]
    }

    /// Replaces the tile at `(x, y)`; a cell outside the grid is left alone.
    pub fn set_tile(&mut self, x: usize, y: usize, tile: u8)
        ensures
            final(self)@ == old(self)@.with_tile(x as int, y as int, tile),
            final(self).inv(),
    {
        proof {
            use_type_invariant(&*self);
        }
        if x >= self.width || y >= self.height {
            return;
        }
        let mut taken = GameMap { width: 0, height: 0, tiles: Vec::new() };
        std::mem::swap(self, &mut taken);
        let GameMap { width, height, mut tiles } = taken;
        let ghost before = tiles.deep_view();
        assert(before == old(self)@.tiles);
        assert(before[y as int] =~= tiles[y as int]@);
        tiles[y][x] = tile;
        assert(tiles.deep_view() =~~= before.update(y as int, before[y as int].update(x as int, tile)));
        *self = GameMap { width, height, tiles };
    }

    /// Whether the cell `(x, y)` is solid. Cells with a negative coordinate
    /// lie outside the grid and are solid like all others out there.
    pub fn is_wall(&self, x: i64, y: i64) -> (solid: bool)
        ensures
            solid == self@.is_wall(x as int, y as int),
    {
        if x < 0 || y < 0 {
            return true;
        }
        proof {
            use_type_invariant(self);
        }
        if x as u64 >= self.width as u64 || y as u64 >= self.height as u64 {
            return true;
        }
        self.get_tile(x as usize, y as usize) != FLOOR_TILE
    }

    /// Whether something may stand in the cell `(x, y)`: a negative coordinate
    /// is turned down at once, any other cell is valid when it is not a wall.
    pub fn is_valid_position(&self, x: i64, y: i64) -> (valid: bool)
        ensures
            valid == (x >= 0 && y >= 0 && !self@.is_wall(x as int, y as int)),
            valid == self@.is_open(x as int, y as int),
    {
        proof {
            use_type_invariant(self);
        }
        if x < 0 || y < 0 {
            return false;
        }
        !self.is_wall(x, y)
    }
}

} // verus!
