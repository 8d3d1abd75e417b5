//! The dungeon tile grid: a flat row-major array of tiles with recorded
//! entrance and exit coordinates, plus the rectangle bookkeeping the
//! generator carves rooms with.

use vstd::prelude::*;

verus! {

/// What a tile is made of.
#[derive(Clone, Copy, PartialEq, Eq, Structural, Debug)]
pub enum TileType {
    Floor,
    Wall,
    Door,
    Corridor,
    StairsUp,
    StairsDown,
}

/// An entity marker carried by a tile.
#[derive(Clone, Copy, PartialEq, Eq, Structural, Debug)]
pub enum Entity {
    /// A monster with its numeric variant id.
    Monster(usize),
}

/// One grid tile: its own coordinates, its type, and an optional entity.
#[derive(Clone, Copy, PartialEq, Eq, Debug)]
pub struct Tile {
    pub x: isize,
    pub y: isize,
    pub t: TileType,
    pub e: Option<Entity>,
}

/// A rectangular placement made during generation: an ordinary room or,
/// when `hall` is set, a corridor.
#[derive(Clone, Copy, PartialEq, Eq, Structural, Debug)]
pub struct Room {
    pub x: isize,
    pub y: isize,
    pub w: isize,
    pub h: isize,
    pub hall: bool,
}

impl Room {
    /// The center tile of the room.
    pub fn center(&self) -> (r: (isize, isize))
        requires
            0 <= self.w,
            0 <= self.h,
            isize::MIN <= self.x + self.w / 2 <= isize::MAX,
            isize::MIN <= self.y + self.h / 2 <= isize::MAX,
        ensures
            r == (
                (self.x + self.w / 2) as isize,
                (self.y + self.h / 2) as isize,
            ),
    {
        (self.x + self.w / 2, self.y + self.h / 2)
    }
}

/// A generated level: `width * height` tiles in row-major order, the
/// entrance and exit coordinates, and the room-graph distance between them.
pub struct Dungeon {
    width: isize,
    height: isize,
    tiles: Vec<Tile>,
    path_length: usize,
    start_coords: (isize, isize),
    end_coords: (isize, isize),
}

impl Clone for Dungeon {
    fn clone(&self) -> (r: Dungeon)
        ensures
            r.spec_width() == self.spec_width(),
            r.spec_height() == self.spec_height(),
            r.spec_path_length() == self.spec_path_length(),
            r.spec_start_coords() == self.spec_start_coords(),
            r.spec_end_coords() == self.spec_end_coords(),
            forall|x: int, y: int|
                self.in_bounds(x, y) ==> #[trigger] r.tile_at(x, y) == self.tile_at(x, y),
            r.wf() == self.wf(),
    {
        let tiles = self.tiles.clone();
        proof {
            assert(tiles@ =~= self.tiles@);
        }
        Dungeon {
            width: self.width,
            height: self.height,
            tiles,
            path_length: self.path_length,
            start_coords: self.start_coords,
            end_coords: self.end_coords,
        }
    }
}

impl Dungeon {
    /// Grid width.
    pub closed spec fn spec_width(self) -> int {
        self.width as int
    }

    /// Grid height.
    pub closed spec fn spec_height(self) -> int {
        self.height as int
    }

    /// `(x, y)` lies on the grid.
    pub open spec fn in_bounds(self, x: int, y: int) -> bool {
        0 <= x < self.spec_width() && 0 <= y < self.spec_height()
    }

    /// The tile stored at `(x, y)`.
    pub closed spec fn tile_at(self, x: int, y: int) -> Tile {
        self.tiles[y * self.spec_width() + x]
    }

    /// The type of the tile at `(x, y)`.
    pub open spec fn type_at(self, x: int, y: int) -> TileType {
        self.tile_at(x, y).t
    }

    /// The entity on the tile at `(x, y)`.
    pub open spec fn entity_at(self, x: int, y: int) -> Option<Entity> {
        self.tile_at(x, y).e
    }

    /// The recorded entrance coordinates.
    pub closed spec fn spec_start_coords(self) -> (int, int) {
        (self.start_coords.0 as int, self.start_coords.1 as int)
    }

    /// The recorded exit coordinates.
    pub closed spec fn spec_end_coords(self) -> (int, int) {
        (self.end_coords.0 as int, self.end_coords.1 as int)
    }

    /// The recorded room-graph distance from entrance to exit.
    pub closed spec fn spec_path_length(self) -> int {
        self.path_length as int
    }

    /// Well-formedness: the flat array has one tile per grid cell, and
    /// every tile records its own grid coordinates.
    pub closed spec fn wf(self) -> bool {
        &&& self.width >= 0
        &&& self.height >= 0
        &&& self.tiles.len() == self.spec_width() * self.spec_height()
        &&& forall|i: int|
            0 <= i < self.tiles.len() ==> (#[trigger] self.tiles[i]).x == i % self.spec_width()
                && self.tiles[i].y == i / self.spec_width()
    }

    /// An all-wall dungeon of the given size, with entrance, exit and path
    /// length zeroed.
    pub fn empty(w: isize, h: isize) -> (r: Dungeon)
        requires
            0 <= w,
            0 <= h,
            w * h <= usize::MAX,
        ensures
            r.wf(),
            r.spec_width() == w,
            r.spec_height() == h,
            forall|x: int, y: int|
                r.in_bounds(x, y) ==> r.type_at(x, y) == TileType::Wall && r.entity_at(x, y)
                    is None,
            r.spec_start_coords() == (0int, 0int),
            r.spec_end_coords() == (0int, 0int),
            r.spec_path_length() == 0,
    {
        let mut tiles: Vec<Tile> = Vec::new();
        let mut y: isize = 0;
        while y < h
            invariant
                0 <= y <= h,
                0 <= w,
                w * h <= usize::MAX,
                tiles@.len() == y * w,
                forall|i: int|
                    0 <= i < tiles@.len() ==> (#[trigger] tiles@[i]).x == i % (w as int)
                        && tiles@[i].y == i / (w as int) && tiles@[i].t == TileType::Wall
                        && tiles@[i].e is None,
            decreases h - y,
        {
            let mut x: isize = 0;
            proof {
                lemma_row_bound(w as int, h as int, y as int);
            }
            while x < w
                invariant
                    0 <= y < h,
                    0 <= x <= w,
                    w * h <= usize::MAX,
                    (y + 1) * w <= w * h,
                    tiles@.len() == y * w + x,
                    forall|i: int|
                        0 <= i < tiles@.len() ==> (#[trigger] tiles@[i]).x == i % (w as int)
                            && tiles@[i].y == i / (w as int) && tiles@[i].t == TileType::Wall
                            && tiles@[i].e is None,
                decreases w - x,
            {
                proof {
                    assert(y * w + x < (y + 1) * w) by (nonlinear_arith)
                        requires
                            0 <= x < w,
                    ;
                    vstd::arithmetic::div_mod::lemma_fundamental_div_mod_converse(
                        y * w + x,
                        w as int,
                        y as int,
                        x as int,
                    );
                }
                tiles.push(Tile { x, y, t: TileType::Wall, e: None });
                x = x + 1;
            }
            proof {
                assert(y * w + w == (y + 1) * w) by (nonlinear_arith);
            }
            y = y + 1;
        }
        let d = Dungeon {
            width: w,
            height: h,
            tiles,
            path_length: 0,
            start_coords: (0, 0),
            end_coords: (0, 0),
        };
        proof {
            assert(d.tiles@.len() == w * h) by (nonlinear_arith)
                requires
                    d.tiles@.len() == h * w,
            ;
            assert forall|x: int, y: int| d.in_bounds(x, y) implies d.type_at(x, y)
                == TileType::Wall && d.entity_at(x, y) is None by {
                lemma_grid_index(w as int, h as int, x, y);
            }
        }
        d
    }

    /// Grid width.
    pub fn width(&self) -> (r: isize)
        ensures
            r == self.spec_width(),
    {
        self.width
    }

    /// Grid height.
    pub fn height(&self) -> (r: isize)
        ensures
            r == self.spec_height(),
    {
        self.height
    }

    /// The recorded entrance coordinates.
    pub fn start_coords(&self) -> (r: (isize, isize))
        ensures
            (r.0 as int, r.1 as int) == self.spec_start_coords(),
    {
        self.start_coords
    }

    /// The recorded exit coordinates.
    pub fn end_coords(&self) -> (r: (isize, isize))
        ensures
            (r.0 as int, r.1 as int) == self.spec_end_coords(),
    {
        self.end_coords
    }

    /// The recorded room-graph distance from entrance to exit.
    pub fn path_length(&self) -> (r: usize)
        ensures
            r == self.spec_path_length(),
    {
        self.path_length
    }

    /// Flat index of `(x, y)`, valid when the coordinates are in bounds.
    fn tile_index(&self, x: isize, y: isize) -> (r: usize)
        requires
            self.wf(),
            self.in_bounds(x as int, y as int),
        ensures
            r == y * self.spec_width() + x,
            r < self.tiles@.len(),
    {
        proof {
            lemma_grid_index(self.spec_width(), self.spec_height(), x as int, y as int);
        }
        (y as usize) * (self.width as usize) + (x as usize)
    }

    /// The tile at `(x, y)`, or `None` off the grid.
    pub fn get_tile<'a>(&'a self, x: isize, y: isize) -> (r: Option<&'a Tile>)
        requires
            self.wf(),
        ensures
            match r {
                Some(t) => self.in_bounds(x as int, y as int) && *t == self.tile_at(
                    x as int,
                    y as int,
                ) && t.x == x && t.y == y,
                None => !self.in_bounds(x as int, y as int),
            },
    {
        if x >= 0 && y >= 0 && x < self.width && y < self.height {
            let idx = self.tile_index(x, y);
            proof {
                self.lemma_tile_coords(x as int, y as int);
            }
            Some(&self.tiles[idx])
        } else {
            None
        }
    }

    /// The type of the tile at `(x, y)`, or `None` off the grid.
    pub fn get_tile_type(&self, x: isize, y: isize) -> (r: Option<TileType>)
        requires
            self.wf(),
        ensures
            match r {
                Some(t) => self.in_bounds(x as int, y as int) && t == self.type_at(
                    x as int,
                    y as int,
                ),
                None => !self.in_bounds(x as int, y as int),
            },
    {
        match self.get_tile(x, y) {
            Some(t) => Some(t.t),
            None => None,
        }
    }

    /// The flat tile array, row-major.
    pub fn get_tile_vector<'a>(&'a self) -> (r: &'a Vec<Tile>)
        requires
            self.wf(),
        ensures
            r@.len() == self.spec_width() * self.spec_height(),
            forall|x: int, y: int|
                self.in_bounds(x, y) ==> r@[y * self.spec_width() + x] == self.tile_at(x, y),
    {
        &self.tiles
    }

    /// Sets the type of the tile at `(x, y)`, keeping its entity; reports
    /// whether the coordinates were on the grid.
    pub(crate) fn set_tile(&mut self, x: isize, y: isize, t: TileType) -> (r: bool)
        requires
            old(self).wf(),
        ensures
            final(self).wf(),
            r == old(self).in_bounds(x as int, y as int),
            final(self).spec_width() == old(self).spec_width(),
            final(self).spec_height() == old(self).spec_height(),
            final(self).spec_start_coords() == old(self).spec_start_coords(),
            final(self).spec_end_coords() == old(self).spec_end_coords(),
            final(self).spec_path_length() == old(self).spec_path_length(),
            r ==> final(self).type_at(x as int, y as int) == t && final(self).entity_at(
                x as int,
                y as int,
            ) == old(self).entity_at(x as int, y as int),
            forall|xx: int, yy: int|
                old(self).in_bounds(xx, yy) && (xx, yy) != (x as int, y as int)
                    ==> #[trigger] final(self).tile_at(xx, yy) == old(self).tile_at(xx, yy),
    {
        if x >= 0 && y >= 0 && x < self.width && y < self.height {
            let idx = self.tile_index(x, y);
            let old_tile = self.tiles[idx];
            self.tiles[idx] = Tile { x: old_tile.x, y: old_tile.y, t, e: old_tile.e };
            proof {
                lemma_grid_index(self.spec_width(), self.spec_height(), x as int, y as int);
                assert forall|xx: int, yy: int|
                    old(self).in_bounds(xx, yy) && (xx, yy) != (x as int, y as int) implies
                    #[trigger] self.tile_at(xx, yy) == old(self).tile_at(xx, yy) by {
                    lemma_grid_index(self.spec_width(), self.spec_height(), xx, yy);
                    lemma_grid_distinct(self.spec_width(), x as int, y as int, xx, yy);
                }
            }
            true
        } else {
            false
        }
    }

    /// Puts an entity on the tile at `(x, y)`, keeping its type; reports
    /// whether the coordinates were on the grid.
    pub(crate) fn set_entity(&mut self, x: isize, y: isize, e: Option<Entity>) -> (r: bool)
        requires
            old(self).wf(),
        ensures
            final(self).wf(),
            r == old(self).in_bounds(x as int, y as int),
            final(self).spec_width() == old(self).spec_width(),
            final(self).spec_height() == old(self).spec_height(),
            final(self).spec_start_coords() == old(self).spec_start_coords(),
            final(self).spec_end_coords() == old(self).spec_end_coords(),
            final(self).spec_path_length() == old(self).spec_path_length(),
            r ==> final(self).entity_at(x as int, y as int) == e && final(self).type_at(
                x as int,
                y as int,
            ) == old(self).type_at(x as int, y as int),
            forall|xx: int, yy: int|
                old(self).in_bounds(xx, yy) && (xx, yy) != (x as int, y as int)
                    ==> #[trigger] final(self).tile_at(xx, yy) == old(self).tile_at(xx, yy),
    {
        if x >= 0 && y >= 0 && x < self.width && y < self.height {
            let idx = self.tile_index(x, y);
            let old_tile = self.tiles[idx];
            self.tiles[idx] = Tile { x: old_tile.x, y: old_tile.y, t: old_tile.t, e };
            proof {
                lemma_grid_index(self.spec_width(), self.spec_height(), x as int, y as int);
                assert forall|xx: int, yy: int|
                    old(self).in_bounds(xx, yy) && (xx, yy) != (x as int, y as int) implies
                    #[trigger] self.tile_at(xx, yy) == old(self).tile_at(xx, yy) by {
                    lemma_grid_index(self.spec_width(), self.spec_height(), xx, yy);
                    lemma_grid_distinct(self.spec_width(), x as int, y as int, xx, yy);
                }
            }
            true
        } else {
            false
        }
    }
}

impl Dungeon {
    /// Every tile of the rectangle `[x, x+w) x [y, y+h)`, widened by the
    /// one-tile buffer, lies on the grid and is Wall: the rectangle can be
    /// carved without touching or abutting anything already carved.
    pub open spec fn room_clear(self, x: int, y: int, w: int, h: int) -> bool {
        forall|xx: int, yy: int|
            #![trigger self.tile_at(xx, yy)]
            x - 1 <= xx < x + w + 1 && y - 1 <= yy < y + h + 1 ==> self.in_bounds(xx, yy)
                && self.type_at(xx, yy) == TileType::Wall
    }

    /// Every tile of the rectangle `[x, x+w) x [y, y+h)` has type `t`.
    pub open spec fn rect_filled(self, x: int, y: int, w: int, h: int, t: TileType) -> bool {
        forall|xx: int, yy: int|
            #![trigger self.tile_at(xx, yy)]
            x <= xx < x + w && y <= yy < y + h ==> self.type_at(xx, yy) == t
    }

    /// Whether the rectangle, with its one-tile buffer, is free to carve.
    /// Mirrors `room_clear`.
    pub fn is_room_position_valid(&self, x: isize, y: isize, w: isize, h: isize) -> (r: bool)
        requires
            self.wf(),
            0 <= w,
            0 <= h,
        ensures
            r == (1 <= w && 1 <= h && self.room_clear(x as int, y as int, w as int, h as int)),
    {
        if w < 1 || h < 1 {
            return false;
        }
        if x < 1 || y < 1 || w >= self.width - x || h >= self.height - y {
            proof {
                let xi = x as int;
                let yi = y as int;
                if self.room_clear(xi, yi, w as int, h as int) {
                    if x < 1 {
                        let t = self.tile_at(xi - 1, yi);
                        assert(self.in_bounds(xi - 1, yi));
                    } else if y < 1 {
                        let t = self.tile_at(xi, yi - 1);
                        assert(self.in_bounds(xi, yi - 1));
                    } else if w >= self.width - x {
                        let t = self.tile_at(xi + w, yi);
                        assert(self.in_bounds(xi + w, yi));
                    } else {
                        let t = self.tile_at(xi, yi + h);
                        assert(self.in_bounds(xi, yi + h));
                    }
                    assert(false);
                }
            }
            return false;
        }
        let mut yy = y - 1;
        while yy < y + h + 1
            invariant
                self.wf(),
                1 <= x,
                1 <= y,
                1 <= w,
                1 <= h,
                x + w < self.spec_width(),
                y + h < self.spec_height(),
                y - 1 <= yy <= y + h + 1,
                forall|xa: int, ya: int|
                    #![trigger self.tile_at(xa, ya)]
                    x - 1 <= xa < x + w + 1 && y - 1 <= ya < yy ==> self.type_at(xa, ya)
                        == TileType::Wall,
            decreases y + h + 1 - yy,
        {
            let mut xx = x - 1;
            while xx < x + w + 1
                invariant
                    self.wf(),
                    1 <= x,
                    1 <= y,
                    1 <= w,
                    1 <= h,
                    x + w < self.spec_width(),
                    y + h < self.spec_height(),
                    y - 1 <= yy <= y + h,
                    x - 1 <= xx <= x + w + 1,
                    forall|xa: int, ya: int|
                        #![trigger self.tile_at(xa, ya)]
                        x - 1 <= xa < x + w + 1 && y - 1 <= ya < yy ==> self.type_at(xa, ya)
                            == TileType::Wall,
                    forall|xa: int|
                        #![trigger self.tile_at(xa, yy as int)]
                        x - 1 <= xa < xx ==> self.type_at(xa, yy as int) == TileType::Wall,
                decreases x + w + 1 - xx,
            {
                match self.get_tile_type(xx, yy) {
                    Some(TileType::Wall) => {},
                    _ => {
                        proof {
                            let t = self.tile_at(xx as int, yy as int);
                        }
                        return false;
                    },
                }
                xx = xx + 1;
            }
            yy = yy + 1;
        }
        true
    }

    /// Carves the rectangle with tile type `t`, leaving entities alone.
    /// The rectangle must lie inside the grid.
    pub(crate) fn fill_tiles(&mut self, x: isize, y: isize, w: isize, h: isize, t: TileType)
        requires
            old(self).wf(),
            1 <= w,
            1 <= h,
            0 <= x,
            0 <= y,
            x + w <= old(self).spec_width(),
            y + h <= old(self).spec_height(),
        ensures
            final(self).wf(),
            final(self).spec_width() == old(self).spec_width(),
            final(self).spec_height() == old(self).spec_height(),
            final(self).spec_start_coords() == old(self).spec_start_coords(),
            final(self).spec_end_coords() == old(self).spec_end_coords(),
            final(self).spec_path_length() == old(self).spec_path_length(),
            final(self).rect_filled(x as int, y as int, w as int, h as int, t),
            forall|xx: int, yy: int|
                #![trigger final(self).tile_at(xx, yy)]
                old(self).in_bounds(xx, yy) && !(x <= xx < x + w && y <= yy < y + h)
                    ==> final(self).tile_at(xx, yy) == old(self).tile_at(xx, yy),
            forall|xx: int, yy: int|
                #![trigger final(self).tile_at(xx, yy)]
                x <= xx < x + w && y <= yy < y + h ==> final(self).entity_at(xx, yy)
                    == old(self).entity_at(xx, yy),
    {
        let ghost pre = *self;
        let mut yy = y;
        while yy < y + h
            invariant
                self.wf(),
                1 <= w,
                1 <= h,
                0 <= x,
                0 <= y,
                y <= yy <= y + h,
                x + w <= self.spec_width(),
                y + h <= self.spec_height(),
                self.spec_width() == pre.spec_width(),
                self.spec_height() == pre.spec_height(),
                self.spec_start_coords() == pre.spec_start_coords(),
                self.spec_end_coords() == pre.spec_end_coords(),
                self.spec_path_length() == pre.spec_path_length(),
                forall|xa: int, ya: int|
                    #![trigger self.tile_at(xa, ya)]
                    x <= xa < x + w && y <= ya < yy ==> self.type_at(xa, ya) == t
                        && self.entity_at(xa, ya) == pre.entity_at(xa, ya),
                forall|xa: int, ya: int|
                    #![trigger self.tile_at(xa, ya)]
                    pre.in_bounds(xa, ya) && !(x <= xa < x + w && y <= ya < yy) ==> self.tile_at(
                        xa,
                        ya,
                    ) == pre.tile_at(xa, ya),
            decreases y + h - yy,
        {
            let ghost row_pre = *self;
            let mut xx = x;
            while xx < x + w
                invariant
                    self.wf(),
                    1 <= w,
                    1 <= h,
                    0 <= x,
                    0 <= y,
                    y <= yy < y + h,
                    x <= xx <= x + w,
                    x + w <= self.spec_width(),
                    y + h <= self.spec_height(),
                    self.spec_width() == row_pre.spec_width(),
                    self.spec_height() == row_pre.spec_height(),
                    self.spec_start_coords() == row_pre.spec_start_coords(),
                    self.spec_end_coords() == row_pre.spec_end_coords(),
                    self.spec_path_length() == row_pre.spec_path_length(),
                    forall|xa: int|
                        #![trigger self.tile_at(xa, yy as int)]
                        x <= xa < xx ==> self.type_at(xa, yy as int) == t && self.entity_at(
                            xa,
                            yy as int,
                        ) == row_pre.entity_at(xa, yy as int),
                    forall|xa: int, ya: int|
                        #![trigger self.tile_at(xa, ya)]
                        row_pre.in_bounds(xa, ya) && !(x <= xa < xx && ya == yy as int)
                            ==> self.tile_at(xa, ya) == row_pre.tile_at(xa, ya),
                decreases x + w - xx,
            {
                let ghost it_pre = *self;
                let _ = self.set_tile(xx, yy, t);
                proof {
                    assert forall|xa: int|
                        #![trigger self.tile_at(xa, yy as int)]
                        x <= xa < xx + 1 implies self.type_at(xa, yy as int) == t
                        && self.entity_at(xa, yy as int) == row_pre.entity_at(xa, yy as int) by {
                        if xa < xx {
                            assert(self.tile_at(xa, yy as int) == it_pre.tile_at(xa, yy as int));
                        }
                    }
                    assert forall|xa: int, ya: int|
                        #![trigger self.tile_at(xa, ya)]
                        row_pre.in_bounds(xa, ya) && !(x <= xa < xx + 1 && ya == yy as int)
                        implies self.tile_at(xa, ya) == row_pre.tile_at(xa, ya) by {
                        assert(self.tile_at(xa, ya) == it_pre.tile_at(xa, ya));
                    }
                }
                xx = xx + 1;
            }
            proof {
                assert forall|xa: int, ya: int|
                    #![trigger self.tile_at(xa, ya)]
                    x <= xa < x + w && y <= ya < yy + 1 implies self.type_at(xa, ya) == t
                    && self.entity_at(xa, ya) == pre.entity_at(xa, ya) by {
                    if ya < yy as int {
                        assert(self.tile_at(xa, ya) == row_pre.tile_at(xa, ya));
                    } else {
                        assert(row_pre.entity_at(xa, ya) == pre.entity_at(xa, ya)) by {
                            assert(row_pre.tile_at(xa, ya) == pre.tile_at(xa, ya));
                        }
                    }
                }
                assert forall|xa: int, ya: int|
                    #![trigger self.tile_at(xa, ya)]
                    pre.in_bounds(xa, ya) && !(x <= xa < x + w && y <= ya < yy + 1) implies
                    self.tile_at(xa, ya) == pre.tile_at(xa, ya) by {
                    assert(self.tile_at(xa, ya) == row_pre.tile_at(xa, ya));
                }
            }
            yy = yy + 1;
        }
    }

    /// Carves `room` with tile type `t` if its position is valid, reporting
    /// whether it did.
    pub fn fill_room(&mut self, room: &Room, t: TileType) -> (r: bool)
        requires
            old(self).wf(),
            0 <= room.w,
            0 <= room.h,
        ensures
            final(self).wf(),
            final(self).spec_width() == old(self).spec_width(),
            final(self).spec_height() == old(self).spec_height(),
            final(self).spec_start_coords() == old(self).spec_start_coords(),
            final(self).spec_end_coords() == old(self).spec_end_coords(),
            final(self).spec_path_length() == old(self).spec_path_length(),
            r == (1 <= room.w && 1 <= room.h && old(self).room_clear(
                room.x as int,
                room.y as int,
                room.w as int,
                room.h as int,
            )),
            r ==> final(self).rect_filled(
                room.x as int,
                room.y as int,
                room.w as int,
                room.h as int,
                t,
            ),
            r ==> forall|xx: int, yy: int|
                #![trigger final(self).tile_at(xx, yy)]
                old(self).in_bounds(xx, yy) && !(room.x <= xx < room.x + room.w && room.y <= yy
                    < room.y + room.h) ==> final(self).tile_at(xx, yy) == old(self).tile_at(xx, yy),
            r ==> forall|xx: int, yy: int|
                #![trigger final(self).tile_at(xx, yy)]
                room.x <= xx < room.x + room.w && room.y <= yy < room.y + room.h
                    ==> final(self).entity_at(xx, yy) == old(self).entity_at(xx, yy),
            !r ==> *final(self) == *old(self),
    {
        if self.is_room_position_valid(room.x, room.y, room.w, room.h) {
            proof {
                // the buffered rectangle is on the grid, so the core is too
                let t0 = self.tile_at(room.x as int, room.y as int);
                let t1 = self.tile_at(room.x + room.w - 1, room.y + room.h - 1);
            }
            self.fill_tiles(room.x, room.y, room.w, room.h, t);
            true
        } else {
            false
        }
    }
}

impl Dungeon {
    /// The tile stored at `(x, y)` records its own coordinates in its
    /// `x` and `y` fields.
    pub proof fn lemma_tile_coords(self, x: int, y: int)
        requires
            self.wf(),
            self.in_bounds(x, y),
        ensures
            self.tile_at(x, y).x == x,
            self.tile_at(x, y).y == y,
    {
        lemma_grid_index(self.spec_width(), self.spec_height(), x, y);
    }

    /// A well-formed dungeon has non-negative dimensions.
    pub proof fn lemma_dims_nonneg(self)
        requires
            self.wf(),
        ensures
            self.spec_width() >= 0,
            self.spec_height() >= 0,
    {
    }

    /// Records the entrance coordinates.
    pub(crate) fn set_start_coords(&mut self, c: (isize, isize))
        ensures
            final(self).wf() == old(self).wf(),
            final(self).spec_width() == old(self).spec_width(),
            final(self).spec_height() == old(self).spec_height(),
            forall|x: int, y: int| #[trigger] final(self).tile_at(x, y) == old(self).tile_at(x, y),
            final(self).spec_start_coords() == (c.0 as int, c.1 as int),
            final(self).spec_end_coords() == old(self).spec_end_coords(),
            final(self).spec_path_length() == old(self).spec_path_length(),
    {
        self.start_coords = c;
    }

    /// Records the exit coordinates.
    pub(crate) fn set_end_coords(&mut self, c: (isize, isize))
        ensures
            final(self).wf() == old(self).wf(),
            final(self).spec_width() == old(self).spec_width(),
            final(self).spec_height() == old(self).spec_height(),
            forall|x: int, y: int| #[trigger] final(self).tile_at(x, y) == old(self).tile_at(x, y),
            final(self).spec_end_coords() == (c.0 as int, c.1 as int),
            final(self).spec_start_coords() == old(self).spec_start_coords(),
            final(self).spec_path_length() == old(self).spec_path_length(),
    {
        self.end_coords = c;
    }

    /// Records the room-graph distance from entrance to exit.
    pub(crate) fn set_path_length(&mut self, n: usize)
        ensures
            final(self).wf() == old(self).wf(),
            final(self).spec_width() == old(self).spec_width(),
            final(self).spec_height() == old(self).spec_height(),
            forall|x: int, y: int| #[trigger] final(self).tile_at(x, y) == old(self).tile_at(x, y),
            final(self).spec_path_length() == n,
            final(self).spec_start_coords() == old(self).spec_start_coords(),
            final(self).spec_end_coords() == old(self).spec_end_coords(),
    {
        self.path_length = n;
    }

    /// Column `x` holds nothing but wall.
    pub open spec fn col_walled(self, x: int) -> bool {
        forall|yy: int|
            #![trigger self.tile_at(x, yy)]
            0 <= yy < self.spec_height() ==> self.type_at(x, yy) == TileType::Wall
    }

    /// Row `y` holds nothing but wall between columns `x0` and `x1`.
    pub open spec fn row_walled_between(self, y: int, x0: int, x1: int) -> bool {
        forall|xx: int|
            #![trigger self.tile_at(xx, y)]
            x0 <= xx < x1 ==> self.type_at(xx, y) == TileType::Wall
    }

    /// `c` is the one and only tile of type `t` on the grid.
    pub open spec fn unique_tile_of_type(self, t: TileType, c: (int, int)) -> bool {
        &&& self.in_bounds(c.0, c.1)
        &&& self.type_at(c.0, c.1) == t
        &&& forall|x: int, y: int|
            self.in_bounds(x, y) && #[trigger] self.type_at(x, y) == t ==> (x, y) == c
    }

    /// `new` is `old` with `dx` columns cut on the left, `rx` on the right,
    /// `dy` rows cut on the top and `ry` on the bottom — nothing else: the
    /// dimensions account for every removed line, every kept tile keeps its
    /// type and entity (shifted into place), and every removed line was
    /// entirely wall, so no non-wall tile is dropped.
    pub open spec fn shrink_frame(old: Dungeon, new: Dungeon, dx: int, rx: int, dy: int, ry: int) -> bool {
        &&& 0 <= dx
        &&& 0 <= rx
        &&& 0 <= dy
        &&& 0 <= ry
        &&& dx + new.spec_width() + rx == old.spec_width()
        &&& dy + new.spec_height() + ry == old.spec_height()
        &&& (forall|x: int, y: int|
            new.in_bounds(x, y) ==> #[trigger] new.type_at(x, y) == old.type_at(x + dx, y + dy)
                && new.entity_at(x, y) == old.entity_at(x + dx, y + dy))
        &&& (forall|c: int|
            0 <= c < dx || old.spec_width() - rx <= c < old.spec_width()
                ==> #[trigger] old.col_walled(c))
        &&& (forall|rr: int|
            0 <= rr < dy || old.spec_height() - ry <= rr < old.spec_height()
                ==> #[trigger] old.row_walled_between(rr, 0, old.spec_width()))
    }

    /// Whether column `x` is wall from top to bottom.
    fn col_all_wall(&self, x: isize) -> (r: bool)
        requires
            self.wf(),
            0 <= x < self.spec_width(),
        ensures
            r == self.col_walled(x as int),
    {
        let mut yy: isize = 0;
        while yy < self.height
            invariant
                self.wf(),
                0 <= x < self.spec_width(),
                0 <= yy <= self.spec_height(),
                forall|ya: int|
                    #![trigger self.tile_at(x as int, ya)]
                    0 <= ya < yy ==> self.type_at(x as int, ya) == TileType::Wall,
            decreases self.spec_height() - yy,
        {
            match self.get_tile_type(x, yy) {
                Some(TileType::Wall) => {},
                _ => {
                    proof {
                        let t = self.tile_at(x as int, yy as int);
                    }
                    return false;
                },
            }
            yy = yy + 1;
        }
        true
    }

    /// Whether row `y` is wall over the column range `[x0, x1)`.
    fn row_all_wall(&self, y: isize, x0: isize, x1: isize) -> (r: bool)
        requires
            self.wf(),
            0 <= y < self.spec_height(),
            0 <= x0,
            x1 <= self.spec_width(),
        ensures
            r == self.row_walled_between(y as int, x0 as int, x1 as int),
    {
        let mut xx: isize = x0;
        if x1 <= x0 {
            return true;
        }
        while xx < x1
            invariant
                self.wf(),
                0 <= y < self.spec_height(),
                0 <= x0 <= xx,
                xx <= x1 <= self.spec_width(),
                forall|xa: int|
                    #![trigger self.tile_at(xa, y as int)]
                    x0 <= xa < xx ==> self.type_at(xa, y as int) == TileType::Wall,
            decreases x1 - xx,
        {
            match self.get_tile_type(xx, y) {
                Some(TileType::Wall) => {},
                _ => {
                    proof {
                        let t = self.tile_at(xx as int, y as int);
                    }
                    return false;
                },
            }
            xx = xx + 1;
        }
        true
    }

    /// Repeatedly strips a border row or column while that entire line is
    /// wall, on all four sides, until no border line of the result is
    /// all-wall. Tile coordinates are re-stamped, and the entrance and exit
    /// are re-derived from wherever the stairs tiles ended up.
    pub fn shrink(&mut self)
        requires
            old(self).wf(),
        ensures
            final(self).wf(),
            final(self).spec_width() <= old(self).spec_width(),
            final(self).spec_height() <= old(self).spec_height(),
            final(self).spec_path_length() == old(self).spec_path_length(),
            exists|dx: int, rx: int, dy: int, ry: int|
                Dungeon::shrink_frame(*old(self), *final(self), dx, rx, dy, ry),
            final(self).spec_width() > 0 ==> !final(self).col_walled(0)
                && !final(self).col_walled(final(self).spec_width() - 1),
            final(self).spec_height() > 0 ==> !final(self).row_walled_between(
                0,
                0,
                final(self).spec_width(),
            ) && !final(self).row_walled_between(
                final(self).spec_height() - 1,
                0,
                final(self).spec_width(),
            ),
            forall|c: (int, int)|
                final(self).unique_tile_of_type(TileType::StairsUp, c)
                    ==> final(self).spec_start_coords() == c,
            forall|c: (int, int)|
                final(self).unique_tile_of_type(TileType::StairsDown, c)
                    ==> final(self).spec_end_coords() == c,
    {
        let ghost pre = *self;
        // margins: how many all-wall border lines to cut on each side
        let mut l: isize = 0;
        while l < self.width && self.col_all_wall(l)
            invariant
                *self == pre,
                self.wf(),
                0 <= l <= self.spec_width(),
                forall|c: int| 0 <= c < l ==> #[trigger] self.col_walled(c),
            decreases self.spec_width() - l,
        {
            l = l + 1;
        }
        let mut rmar: isize = 0;
        while l + rmar < self.width && self.col_all_wall(self.width - rmar - 1)
            invariant
                *self == pre,
                self.wf(),
                0 <= l <= self.spec_width(),
                0 <= rmar,
                l + rmar <= self.spec_width(),
                l == self.spec_width() || !self.col_walled(l as int),
                l < self.spec_width() ==> l + rmar < self.spec_width(),
                forall|c: int| 0 <= c < l ==> #[trigger] self.col_walled(c),
                forall|c: int|
                    self.spec_width() - rmar <= c < self.spec_width()
                        ==> #[trigger] self.col_walled(c),
            decreases self.spec_width() - l - rmar,
        {
            rmar = rmar + 1;
        }
        let kw = self.width - rmar;
        let mut tmar: isize = 0;
        while tmar < self.height && self.row_all_wall(tmar, l, kw)
            invariant
                *self == pre,
                self.wf(),
                0 <= l <= self.spec_width(),
                0 <= rmar,
                l + rmar <= self.spec_width(),
                kw == self.spec_width() - rmar,
                0 <= tmar <= self.spec_height(),
                forall|rr: int|
                    0 <= rr < tmar ==> #[trigger] self.row_walled_between(rr, l as int, kw as int),
            decreases self.spec_height() - tmar,
        {
            tmar = tmar + 1;
        }
        let mut bmar: isize = 0;
        while tmar + bmar < self.height && self.row_all_wall(self.height - bmar - 1, l, kw)
            invariant
                *self == pre,
                self.wf(),
                0 <= l <= self.spec_width(),
                0 <= rmar,
                l + rmar <= self.spec_width(),
                kw == self.spec_width() - rmar,
                0 <= tmar <= self.spec_height(),
                0 <= bmar,
                tmar + bmar <= self.spec_height(),
                tmar == self.spec_height() || !self.row_walled_between(
                    tmar as int,
                    l as int,
                    kw as int,
                ),
                tmar < self.spec_height() ==> tmar + bmar < self.spec_height(),
                forall|rr: int|
                    0 <= rr < tmar ==> #[trigger] self.row_walled_between(rr, l as int, kw as int),
                forall|rr: int|
                    self.spec_height() - bmar <= rr < self.spec_height()
                        ==> #[trigger] self.row_walled_between(rr, l as int, kw as int),
            decreases self.spec_height() - tmar - bmar,
        {
            bmar = bmar + 1;
        }
        // rebuild the kept window, re-stamping coordinates and watching for
        // the stairs
        let new_w = self.width - l - rmar;
        let new_h = self.height - tmar - bmar;
        proof {
            assert(new_w * new_h <= self.spec_width() * self.spec_height()) by (nonlinear_arith)
                requires
                    0 <= new_w <= self.spec_width(),
                    0 <= new_h <= self.spec_height(),
            ;
        }
        let mut tiles: Vec<Tile> = Vec::new();
        let mut new_start: Option<(isize, isize)> = None;
        let mut new_end: Option<(isize, isize)> = None;
        let mut y: isize = 0;
        while y < new_h
            invariant
                *self == pre,
                self.wf(),
                0 <= l,
                0 <= tmar,
                0 <= new_w,
                0 <= new_h,
                new_w == self.spec_width() - l - rmar,
                new_h == self.spec_height() - tmar - bmar,
                0 <= rmar,
                0 <= bmar,
                kw == self.spec_width() - rmar,
                l + rmar <= self.spec_width(),
                tmar + bmar <= self.spec_height(),
                forall|c: int| 0 <= c < l ==> #[trigger] self.col_walled(c),
                forall|c: int|
                    self.spec_width() - rmar <= c < self.spec_width()
                        ==> #[trigger] self.col_walled(c),
                forall|rr: int|
                    0 <= rr < tmar ==> #[trigger] self.row_walled_between(rr, l as int, kw as int),
                forall|rr: int|
                    self.spec_height() - bmar <= rr < self.spec_height()
                        ==> #[trigger] self.row_walled_between(rr, l as int, kw as int),
                l == self.spec_width() || !self.col_walled(l as int),
                l < self.spec_width() ==> l + rmar < self.spec_width() && !self.col_walled(
                    kw - 1,
                ),
                tmar == self.spec_height() || !self.row_walled_between(
                    tmar as int,
                    l as int,
                    kw as int,
                ),
                tmar < self.spec_height() ==> tmar + bmar < self.spec_height()
                    && !self.row_walled_between(
                    self.spec_height() - bmar - 1,
                    l as int,
                    kw as int,
                ),
                l + new_w <= self.spec_width(),
                tmar + new_h <= self.spec_height(),
                new_w * new_h <= self.spec_width() * self.spec_height(),
                0 <= y <= new_h,
                tiles@.len() == y * new_w,
                forall|i: int|
                    0 <= i < tiles@.len() ==> (#[trigger] tiles@[i]).x == i % (new_w as int)
                        && tiles@[i].y == i / (new_w as int) && tiles@[i].t == self.type_at(
                        i % (new_w as int) + l,
                        i / (new_w as int) + tmar,
                    ) && tiles@[i].e == self.entity_at(
                        i % (new_w as int) + l,
                        i / (new_w as int) + tmar,
                    ),
                match new_start {
                    None => forall|xa: int, ya: int|
                        #![trigger self.tile_at(xa + l, ya + tmar)]
                        0 <= xa < new_w && 0 <= ya < y ==> self.type_at(xa + l, ya + tmar)
                            != TileType::StairsUp,
                    Some(c) => 0 <= c.0 < new_w && 0 <= c.1 < y && self.type_at(
                        c.0 + l,
                        c.1 + tmar,
                    ) == TileType::StairsUp,
                },
                match new_end {
                    None => forall|xa: int, ya: int|
                        #![trigger self.tile_at(xa + l, ya + tmar)]
                        0 <= xa < new_w && 0 <= ya < y ==> self.type_at(xa + l, ya + tmar)
                            != TileType::StairsDown,
                    Some(c) => 0 <= c.0 < new_w && 0 <= c.1 < y && self.type_at(
                        c.0 + l,
                        c.1 + tmar,
                    ) == TileType::StairsDown,
                },
            decreases new_h - y,
        {
            let mut x: isize = 0;
            proof {
                lemma_row_bound(new_w as int, new_h as int, y as int);
            }
            while x < new_w
                invariant
                    *self == pre,
                    self.wf(),
                    0 <= l,
                    0 <= tmar,
                    l + new_w <= self.spec_width(),
                    tmar + new_h <= self.spec_height(),
                    0 <= y < new_h,
                    0 <= x <= new_w,
                    new_w == self.spec_width() - l - rmar,
                    0 <= rmar,
                    kw == self.spec_width() - rmar,
                    (y + 1) * new_w <= new_w * new_h,
                    new_w * new_h <= self.spec_width() * self.spec_height(),
                    tiles@.len() == y * new_w + x,
                    forall|i: int|
                        0 <= i < tiles@.len() ==> (#[trigger] tiles@[i]).x == i % (new_w as int)
                            && tiles@[i].y == i / (new_w as int) && tiles@[i].t == self.type_at(
                            i % (new_w as int) + l,
                            i / (new_w as int) + tmar,
                        ) && tiles@[i].e == self.entity_at(
                            i % (new_w as int) + l,
                            i / (new_w as int) + tmar,
                        ),
                    match new_start {
                        None => forall|xa: int, ya: int|
                            #![trigger self.tile_at(xa + l, ya + tmar)]
                            0 <= xa < new_w && 0 <= ya < y || (ya == y && 0 <= xa < x)
                                ==> self.type_at(xa + l, ya + tmar) != TileType::StairsUp,
                        Some(c) => 0 <= c.0 < new_w && (0 <= c.1 < y || (c.1 == y && 0 <= c.0 < x))
                            && self.type_at(c.0 + l, c.1 + tmar) == TileType::StairsUp,
                    },
                    match new_end {
                        None => forall|xa: int, ya: int|
                            #![trigger self.tile_at(xa + l, ya + tmar)]
                            0 <= xa < new_w && 0 <= ya < y || (ya == y && 0 <= xa < x)
                                ==> self.type_at(xa + l, ya + tmar) != TileType::StairsDown,
                        Some(c) => 0 <= c.0 < new_w && (0 <= c.1 < y || (c.1 == y && 0 <= c.0 < x))
                            && self.type_at(c.0 + l, c.1 + tmar) == TileType::StairsDown,
                    },
                decreases new_w - x,
            {
                proof {
                    assert(y * new_w + x < (y + 1) * new_w) by (nonlinear_arith)
                        requires
                            0 <= x < new_w,
                    ;
                    vstd::arithmetic::div_mod::lemma_fundamental_div_mod_converse(
                        y * new_w + x,
                        new_w as int,
                        y as int,
                        x as int,
                    );
                }
                let tl = match self.get_tile(x + l, y + tmar) {
                    Some(t) => *t,
                    None => {
                        proof {
                            assert(false);
                        }
                        Tile { x: 0, y: 0, t: TileType::Wall, e: None }
                    },
                };
                tiles.push(Tile { x, y, t: tl.t, e: tl.e });
                match tl.t {
                    TileType::StairsUp => {
                        new_start = Some((x, y));
                    },
                    TileType::StairsDown => {
                        new_end = Some((x, y));
                    },
                    _ => {},
                }
                x = x + 1;
            }
            proof {
                assert(y * new_w + new_w == (y + 1) * new_w) by (nonlinear_arith);
            }
            y = y + 1;
        }
        self.width = new_w;
        self.height = new_h;
        self.tiles = tiles;
        match new_start {
            Some(c) => {
                self.start_coords = c;
            },
            None => {},
        }
        match new_end {
            Some(c) => {
                self.end_coords = c;
            },
            None => {},
        }
        proof {
            assert(self.tiles@.len() == new_w * new_h) by (nonlinear_arith)
                requires
                    self.tiles@.len() == new_h * new_w,
            ;
            assert forall|x: int, y: int| self.in_bounds(x, y) implies #[trigger] self.type_at(
                x,
                y,
            ) == pre.type_at(x + l, y + tmar) && self.entity_at(x, y) == pre.entity_at(
                x + l,
                y + tmar,
            ) by {
                lemma_grid_index(new_w as int, new_h as int, x, y);
            }
            // every removed line was entirely wall, across the full old width
            assert forall|rr: int|
                0 <= rr < tmar || pre.spec_height() - bmar <= rr < pre.spec_height() implies
                #[trigger] pre.row_walled_between(rr, 0, pre.spec_width()) by {
                assert(pre.row_walled_between(rr, l as int, kw as int));
                assert forall|xx: int| 0 <= xx < pre.spec_width() implies (
                #[trigger] pre.tile_at(xx, rr)).t == TileType::Wall by {
                    if xx < l {
                        assert(pre.col_walled(xx));
                    } else if xx >= kw {
                        assert(pre.col_walled(xx));
                    }
                }
            }
            assert(Dungeon::shrink_frame(pre, *self, l as int, rmar as int, tmar as int,
                bmar as int));
            // stop conditions: no border line of the result is all-wall
            if new_w > 0 {
                assert(l < pre.spec_width());
                assert(!pre.col_walled(l as int));
                let y0 = choose|yy: int|
                    0 <= yy < pre.spec_height() && (#[trigger] pre.tile_at(l as int, yy)).t
                        != TileType::Wall;
                assert(tmar <= y0) by {
                    if y0 < tmar {
                        assert(pre.row_walled_between(y0, l as int, kw as int));
                        assert(pre.tile_at(l as int, y0) == pre.tile_at(l as int, y0));
                        assert(false);
                    }
                }
                assert(y0 < pre.spec_height() - bmar) by {
                    if y0 >= pre.spec_height() - bmar {
                        assert(pre.row_walled_between(y0, l as int, kw as int));
                        assert(pre.tile_at(l as int, y0) == pre.tile_at(l as int, y0));
                        assert(false);
                    }
                }
                assert(0 <= y0 - tmar < new_h);
                assert(self.type_at(0, y0 - tmar) != TileType::Wall) by {
                    assert(self.in_bounds(0, y0 - tmar));
                }
                assert(!self.col_walled(0)) by {
                    assert(self.tile_at(0, y0 - tmar) == self.tile_at(0, y0 - tmar));
                }
                assert(!pre.col_walled(kw - 1));
                let y1 = choose|yy: int|
                    0 <= yy < pre.spec_height() && (#[trigger] pre.tile_at(kw - 1, yy)).t
                        != TileType::Wall;
                assert(tmar <= y1) by {
                    if y1 < tmar {
                        assert(pre.row_walled_between(y1, l as int, kw as int));
                        assert(pre.tile_at(kw - 1, y1) == pre.tile_at(kw - 1, y1));
                        assert(false);
                    }
                }
                assert(y1 < pre.spec_height() - bmar) by {
                    if y1 >= pre.spec_height() - bmar {
                        assert(pre.row_walled_between(y1, l as int, kw as int));
                        assert(pre.tile_at(kw - 1, y1) == pre.tile_at(kw - 1, y1));
                        assert(false);
                    }
                }
                assert(self.type_at(new_w - 1, y1 - tmar) != TileType::Wall) by {
                    assert(self.in_bounds(new_w - 1, y1 - tmar));
                }
                assert(!self.col_walled(new_w - 1)) by {
                    assert(self.tile_at(new_w - 1, y1 - tmar) == self.tile_at(
                        new_w - 1,
                        y1 - tmar,
                    ));
                }
                // rows: the first and last kept rows hold non-wall tiles
                assert(tmar < pre.spec_height());
                assert(!pre.row_walled_between(tmar as int, l as int, kw as int));
                let x0 = choose|xx: int|
                    l <= xx < kw && (#[trigger] pre.tile_at(xx, tmar as int)).t != TileType::Wall;
                assert(self.type_at(x0 - l, 0) != TileType::Wall) by {
                    assert(self.in_bounds(x0 - l, 0));
                }
                assert(!self.row_walled_between(0, 0, new_w as int)) by {
                    assert(self.tile_at(x0 - l, 0) == self.tile_at(x0 - l, 0));
                }
                assert(!pre.row_walled_between(
                    pre.spec_height() - bmar - 1,
                    l as int,
                    kw as int,
                ));
                let x1 = choose|xx: int|
                    l <= xx < kw && (#[trigger] pre.tile_at(xx, pre.spec_height() - bmar - 1)).t
                        != TileType::Wall;
                assert(self.type_at(x1 - l, new_h - 1) != TileType::Wall) by {
                    assert(self.in_bounds(x1 - l, new_h - 1));
                }
                assert(!self.row_walled_between(new_h - 1, 0, new_w as int)) by {
                    assert(self.tile_at(x1 - l, new_h - 1) == self.tile_at(x1 - l, new_h - 1));
                }
            } else {
                // no kept column means no kept row either: rows over an
                // empty column range are vacuously wall, so all are cut
                assert(kw == l);
                assert(tmar == pre.spec_height()) by {
                    if tmar < pre.spec_height() {
                        assert(pre.row_walled_between(tmar as int, l as int, kw as int));
                        assert(false);
                    }
                }
                assert(new_h == 0);
            }
            assert forall|c: (int, int)| self.unique_tile_of_type(TileType::StairsUp, c) implies
                self.spec_start_coords() == c by {
                lemma_grid_index(new_w as int, new_h as int, c.0, c.1);
                match new_start {
                    None => {
                        assert(self.type_at(c.0, c.1) == pre.type_at(c.0 + l, c.1 + tmar));
                        assert(pre.tile_at(c.0 + l, c.1 + tmar) == pre.tile_at(c.0 + l, c.1 + tmar));
                        assert(false);
                    },
                    Some(nc) => {
                        assert(self.in_bounds(nc.0 as int, nc.1 as int));
                        assert(self.type_at(nc.0 as int, nc.1 as int) == TileType::StairsUp) by {
                            lemma_grid_index(new_w as int, new_h as int, nc.0 as int, nc.1 as int);
                        }
                        assert((nc.0 as int, nc.1 as int) == c);
                    },
                }
            }
            assert forall|c: (int, int)| self.unique_tile_of_type(TileType::StairsDown, c) implies
                self.spec_end_coords() == c by {
                lemma_grid_index(new_w as int, new_h as int, c.0, c.1);
                match new_end {
                    None => {
                        assert(self.type_at(c.0, c.1) == pre.type_at(c.0 + l, c.1 + tmar));
                        assert(pre.tile_at(c.0 + l, c.1 + tmar) == pre.tile_at(c.0 + l, c.1 + tmar));
                        assert(false);
                    },
                    Some(nc) => {
                        assert(self.in_bounds(nc.0 as int, nc.1 as int));
                        assert(self.type_at(nc.0 as int, nc.1 as int) == TileType::StairsDown) by {
                            lemma_grid_index(new_w as int, new_h as int, nc.0 as int, nc.1 as int);
                        }
                        assert((nc.0 as int, nc.1 as int) == c);
                    },
                }
            }
        }
    }
}

/// A full row of the grid stays inside the flat array.
proof fn lemma_row_bound(w: int, h: int, y: int)
    requires
        0 <= w,
        0 <= y < h,
    ensures
        (y + 1) * w <= w * h,
{
    assert((y + 1) * w <= w * h) by (nonlinear_arith)
        requires
            0 <= w,
            0 <= y < h,
    ;
}

/// Flat-index arithmetic for a grid cell.
proof fn lemma_grid_index(w: int, h: int, x: int, y: int)
    requires
        0 <= x < w,
        0 <= y < h,
    ensures
        0 <= y * w + x < w * h,
        (y * w + x) % w == x,
        (y * w + x) / w == y,
{
    assert(0 <= y * w + x && y * w + x < w * h) by (nonlinear_arith)
        requires
            0 <= x < w,
            0 <= y < h,
    ;
    vstd::arithmetic::div_mod::lemma_fundamental_div_mod_converse(y * w + x, w, y, x);
}

/// Distinct grid cells have distinct flat indexes.
proof fn lemma_grid_distinct(w: int, x1: int, y1: int, x2: int, y2: int)
    requires
        0 <= x1 < w,
        0 <= x2 < w,
        0 <= y1,
        0 <= y2,
        (x1, y1) != (x2, y2),
    ensures
        y1 * w + x1 != y2 * w + x2,
{
    if y1 == y2 {
    } else {
        assert(y1 * w + x1 != y2 * w + x2) by (nonlinear_arith)
            requires
                0 <= x1 < w,
                0 <= x2 < w,
                y1 != y2,
        ;
    }
}

} // verus!
