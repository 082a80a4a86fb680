use vstd::prelude::*;

use crate::coord::Coordinate;
use crate::coord::in_range;

verus! {

/// Opaque identifier of a tile graphic; an external tile table owns its meaning.
pub type TileId = u16;

/// Opaque movement code; an external movement-rule table decides its legality.
pub type MovementId = u8;

/// Where a warp drops the actor; opaque to this subsystem beyond equality.
#[derive(Clone, Copy, PartialEq, Eq, Structural, Debug)]
pub struct WarpDestination {
    pub map_id: u16,
    pub coords: Coordinate,
}

/// One warp trigger: stepping on `location` (chunk-local) warps to `destination`.
#[derive(Clone, Copy, PartialEq, Eq, Structural, Debug)]
pub struct Warp {
    pub location: Coordinate,
    pub destination: WarpDestination,
}

/// The destination of the first warp at `(x, y)` among `warps[i..]`, if any.
pub open spec fn warp_from(warps: Seq<Warp>, i: int, x: int, y: int) -> Option<WarpDestination>
    decreases warps.len() - i,
{
    if i < 0 || i >= warps.len() {
        None
    } else if warps[i].location.x == x && warps[i].location.y == y {
        Some(warps[i].destination)
    } else {
        warp_from(warps, i + 1, x, y)
    }
}

/// One rectangular tile grid: `width * height` tiles in row-major order,
/// a parallel grid of movement codes, a small set of border tiles, and the
/// chunk's warp triggers. All lookups take chunk-local coordinates.
pub struct WorldMap {
    pub name: String,
    pub width: u16,
    pub height: u16,
    pub tile_map: Vec<TileId>,
    pub border_blocks: Vec<TileId>,
    pub movement_map: Vec<MovementId>,
    pub warps: Vec<Warp>,
}

impl WorldMap {
    /// Both grids cover the rectangle exactly.
    pub open spec fn wf(self) -> bool {
        &&& self.tile_map@.len() == self.width * self.height
        &&& self.movement_map@.len() == self.width * self.height
    }

    pub open spec fn in_grid(self, x: int, y: int) -> bool {
        &&& 0 <= x < self.width
        &&& 0 <= y < self.height
    }

    pub open spec fn tile_at(self, x: int, y: int) -> TileId {
        self.tile_map@[x + y * self.width]
    }

    pub open spec fn movement_at(self, x: int, y: int) -> MovementId {
        self.movement_map@[x + y * self.width]
    }

    pub open spec fn warp_at(self, x: int, y: int) -> Option<WarpDestination> {
        warp_from(self.warps@, 0, x, y)
    }

    pub fn in_bounds(&self, coords: Coordinate) -> (r: bool)
        ensures
            r == self.in_grid(coords.x as int, coords.y as int),
    {
        coords.x >= 0 && coords.x < self.width as i64 && coords.y >= 0 && coords.y < self.height as i64
    }

    /// Row-major index of an in-bounds coordinate.
    fn grid_index(&self, coords: Coordinate) -> (r: usize)
        requires
            self.wf(),
            self.in_grid(coords.x as int, coords.y as int),
        ensures
            r == coords.x + coords.y * self.width,
            r < self.tile_map@.len(),
            r < self.movement_map@.len(),
    {
        proof {
            assert((coords.y as int) * (self.width as int) <= (self.height - 1) * (self.width as int))
                by (nonlinear_arith)
                requires
                    0 <= coords.y as int <= self.height - 1,
                    0 <= self.width as int,
            ;
            assert((self.height - 1) * (self.width as int) + self.width == self.width * self.height)
                by (nonlinear_arith);
            assert((coords.y as int) * (self.width as int) <= 65534 * 65535) by (nonlinear_arith)
                requires
                    0 <= coords.y as int <= 65534,
                    0 <= self.width as int <= 65535,
            ;
        }
        (coords.x as usize) + (coords.y as usize) * (self.width as usize)
    }

    /// The tile under an in-bounds local coordinate.
    pub fn tile(&self, coords: Coordinate) -> (r: TileId)
        requires
            self.wf(),
            self.in_grid(coords.x as int, coords.y as int),
        ensures
            r == self.tile_at(coords.x as int, coords.y as int),
    {
        let idx = self.grid_index(coords);
        self.tile_map[idx]
    }

    /// Bounds-checked tile lookup: the tile if the coordinate is in the grid.
    pub fn safe_tile(&self, coords: Coordinate) -> (r: Option<TileId>)
        requires
            self.wf(),
        ensures
            r == if self.in_grid(coords.x as int, coords.y as int) {
                Some(self.tile_at(coords.x as int, coords.y as int))
            } else {
                None::<TileId>
            },
    {
        if self.in_bounds(coords) {
            Some(self.tile(coords))
        } else {
            None
        }
    }

    /// The movement code under an in-bounds local coordinate.
    pub fn walkable(&self, coords: Coordinate) -> (r: MovementId)
        requires
            self.wf(),
            self.in_grid(coords.x as int, coords.y as int),
        ensures
            r == self.movement_at(coords.x as int, coords.y as int),
    {
        let idx = self.grid_index(coords);
        self.movement_map[idx]
    }

    /// The destination of the first warp declared at this local coordinate.
    pub fn check_warp(&self, coords: Coordinate) -> (r: Option<WarpDestination>)
        ensures
            r == self.warp_at(coords.x as int, coords.y as int),
    {
        let mut i: usize = 0;
        while i < self.warps.len()
            invariant
                0 <= i <= self.warps@.len(),
                warp_from(self.warps@, 0, coords.x as int, coords.y as int)
                    == warp_from(self.warps@, i as int, coords.x as int, coords.y as int),
            decreases self.warps@.len() - i,
        {
            let w = self.warps[i];
            if w.location.x == coords.x && w.location.y == coords.y {
                return Some(w.destination);
            }
            i = i + 1;
        }
        None
    }
}

/// One chunk: a tile grid placed at `coords` in absolute space, with the
/// identifiers of the chunks it declares as neighbors.
pub struct WorldChunk {
    pub coords: Coordinate,
    pub map: WorldMap,
    pub connections: Vec<u16>,
}

impl WorldChunk {
    /// The grid is well-formed and the origin is within the coordinate bound.
    pub open spec fn wf(self) -> bool {
        &&& self.map.wf()
        &&& in_range(self.coords)
    }

    /// Whether the absolute point `(x, y)` falls inside this chunk's
    /// rectangle, i.e. is in the grid once translated into the chunk's
    /// local frame.
    pub open spec fn covers(self, x: int, y: int) -> bool {
        self.map.in_grid(x - self.coords.x, y - self.coords.y)
    }

    /// Bounds test in this chunk's own local frame.
    pub fn in_bounds(&self, coords: Coordinate) -> (r: bool)
        ensures
            r == self.map.in_grid(coords.x as int, coords.y as int),
    {
        self.map.in_bounds(coords)
    }

    /// Tile lookup in this chunk's own local frame.
    pub fn tile(&self, coords: Coordinate) -> (r: TileId)
        requires
            self.wf(),
            self.map.in_grid(coords.x as int, coords.y as int),
        ensures
            r == self.map.tile_at(coords.x as int, coords.y as int),
    {
        self.map.tile(coords)
    }

    /// Bounds-checked tile lookup in this chunk's own local frame.
    pub fn safe_tile(&self, coords: Coordinate) -> (r: Option<TileId>)
        requires
            self.wf(),
        ensures
            r == if self.map.in_grid(coords.x as int, coords.y as int) {
                Some(self.map.tile_at(coords.x as int, coords.y as int))
            } else {
                None::<TileId>
            },
    {
        self.map.safe_tile(coords)
    }

    /// Movement-code lookup in this chunk's own local frame.
    pub fn walkable(&self, coords: Coordinate) -> (r: MovementId)
        requires
            self.wf(),
            self.map.in_grid(coords.x as int, coords.y as int),
        ensures
            r == self.map.movement_at(coords.x as int, coords.y as int),
    {
        self.map.walkable(coords)
    }

    /// Warp lookup in this chunk's own local frame.
    pub fn check_warp(&self, coords: Coordinate) -> (r: Option<WarpDestination>)
        ensures
            r == self.map.warp_at(coords.x as int, coords.y as int),
    {
        self.map.check_warp(coords)
    }
}

} // verus!
