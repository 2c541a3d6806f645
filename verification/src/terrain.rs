//! Terrain types and the map of terrain tiles.
//!
//! Map coordinates are offset positions (`OffsetPos`) because that is the
//! easiest layout for storage; the top left corner is `(0, 0)`.

use vstd::prelude::*;
use crate::hexpos::{div2_trunc, rem2_trunc, spec_offset_to_cube, spec_to_offset, OffsetPos, Pos, PosPath};

verus! {

/// Terrain type. Each tile has a terrain type, which is represented by
/// this structure.
#[derive(Debug, Copy, Clone, PartialEq, Eq, Structural)]
pub enum Terrain {
    Plain,
    Grassland,
    Desert,
    Hill,
    Mountain,
    Water,
    OutOfBounds,
}

/// The defense bonus, as a signed percentage, a defender on this terrain
/// receives.
pub open spec fn spec_defense_modifier(t: Terrain) -> int {
    match t {
        Terrain::Hill => 25,
        _ => 0,
    }
}

/// Whether a moving unit can enter this terrain at all.
pub open spec fn spec_is_passable(t: Terrain) -> bool {
    match t {
        Terrain::Mountain | Terrain::Water | Terrain::OutOfBounds => false,
        _ => true,
    }
}

/// How many movement points entering this terrain costs.
pub open spec fn spec_movement_cost(t: Terrain) -> int {
    match t {
        Terrain::Hill => 2,
        _ => 1,
    }
}

/// The character representing this terrain on screen.
pub open spec fn spec_map_char(t: Terrain) -> char {
    match t {
        Terrain::Plain => '\'',
        Terrain::Grassland => '"',
        Terrain::Desert => ' ',
        Terrain::Hill => '^',
        Terrain::Mountain => 'A',
        Terrain::Water => '~',
        Terrain::OutOfBounds => '?',
    }
}

impl Terrain {
    /// Every terrain a tile may be stored as (out-of-bounds is only ever
    /// synthesized by lookups).
    pub fn all() -> (r: [Terrain; 6])
        ensures
            r@ =~= seq![
                Terrain::Plain,
                Terrain::Grassland,
                Terrain::Desert,
                Terrain::Hill,
                Terrain::Mountain,
                Terrain::Water,
            ],
    {
        [
            Terrain::Plain,
            Terrain::Grassland,
            Terrain::Desert,
            Terrain::Hill,
            Terrain::Mountain,
            Terrain::Water,
        ]
    }

    /// Returns the character representing a particular terrain on screen.
    pub fn map_char(&self) -> (r: char)
        ensures
            r == spec_map_char(*self),
    {
        match *self {
            Terrain::Plain => '\'',
            Terrain::Grassland => '"',
            Terrain::Desert => ' ',
            Terrain::Hill => '^',
            Terrain::Mountain => 'A',
            Terrain::Water => '~',
            Terrain::OutOfBounds => '?',
        }
    }

    pub fn name(&self) -> (r: &'static str)
        ensures
            r@ == match *self {
                Terrain::Plain => "Plain"@,
                Terrain::Grassland => "Grassland"@,
                Terrain::Desert => "Desert"@,
                Terrain::Hill => "Hill"@,
                Terrain::Mountain => "Mountain"@,
                Terrain::Water => "Water"@,
                Terrain::OutOfBounds => "Out of bounds"@,
            },
    {
        match *self {
            Terrain::Plain => "Plain",
            Terrain::Grassland => "Grassland",
            Terrain::Desert => "Desert",
            Terrain::Hill => "Hill",
            Terrain::Mountain => "Mountain",
            Terrain::Water => "Water",
            Terrain::OutOfBounds => "Out of bounds",
        }
    }

    pub fn defense_modifier(&self) -> (r: i8)
        ensures
            r == spec_defense_modifier(*self),
    {
        match *self {
            Terrain::Hill => 25,
            _ => 0,
        }
    }

    /// Returns whether the terrain is passable by our moving unit.
    pub fn is_passable(&self) -> (r: bool)
        ensures
            r == spec_is_passable(*self),
    {
        match *self {
            Terrain::Mountain | Terrain::Water | Terrain::OutOfBounds => false,
            _ => true,
        }
    }

    /// Returns how much movement points it costs to move on that terrain.
    pub fn movement_cost(&self) -> (r: u8)
        ensures
            r == spec_movement_cost(*self),
    {
        match *self {
            Terrain::Hill => 2,
            _ => 1,
        }
    }
}

/// Whether converting `p` to an offset position stays within `i32`.
pub open spec fn offset_ok(p: Pos) -> bool {
    i32::MIN <= p.z + div2_trunc(p.x as int) <= i32::MAX
}

/// Map of terrain tiles. The top left corner is `(0, 0)` in offset pos.
pub struct TerrainMap {
    width: i32,
    height: i32,
    data: Vec<Terrain>,  // sequence of rows, then cols. len == width * height.
}

impl TerrainMap {
    pub closed spec fn spec_width(&self) -> int {
        self.width as int
    }

    pub closed spec fn spec_height(&self) -> int {
        self.height as int
    }

    /// The stored tiles, rows first.
    pub closed spec fn grid(&self) -> Seq<Terrain> {
        self.data@
    }

    /// The storage is consistent: one tile per cell of a `width` by
    /// `height` rectangle, of a size the index arithmetic can reach.
    pub open spec fn wf(&self) -> bool {
        &&& 0 <= self.spec_width()
        &&& 0 <= self.spec_height()
        &&& self.grid().len() == self.spec_width() * self.spec_height()
        &&& self.spec_width() * self.spec_height() <= i32::MAX
    }

    /// The terrain this map reports at a cube position: the stored tile,
    /// or out-of-bounds when the position falls outside the rectangle.
    pub open spec fn spec_at(&self, pos: Pos) -> Terrain {
        let (ox, oy) = spec_to_offset(pos);
        if ox < 0 || oy < 0 || ox >= self.spec_width() || oy >= self.spec_height() {
            Terrain::OutOfBounds
        } else {
            self.grid()[oy * self.spec_width() + ox]
        }
    }

    pub fn new(width: i32, height: i32, data: Vec<Terrain>) -> (r: TerrainMap)
        requires
            0 <= width,
            0 <= height,
            data@.len() == width * height,
            width * height <= i32::MAX,
        ensures
            r.wf(),
            r.spec_width() == width,
            r.spec_height() == height,
            r.grid() == data@,
    {
        TerrainMap { width, height, data }
    }

    /// Creates a map filled with grassland. Useful for testing.
    pub fn empty_map(width: i32, height: i32) -> (r: TerrainMap)
        requires
            0 <= width,
            0 <= height,
            width * height <= i32::MAX,
        ensures
            r.wf(),
            r.spec_width() == width,
            r.spec_height() == height,
            r.grid() == Seq::new((width * height) as nat, |i: int| Terrain::Grassland),
    {
        proof {
            assert(width * height >= 0) by (nonlinear_arith)
                requires
                    width >= 0,
                    height >= 0,
            ;
        }
        let n = (width * height) as usize;
        let mut data: Vec<Terrain> = Vec::new();
        let mut i: usize = 0;
        while i < n
            invariant
                i <= n,
                data@ =~= Seq::new(i as nat, |j: int| Terrain::Grassland),
            decreases n - i,
        {
            data.push(Terrain::Grassland);
            i = i + 1;
        }
        proof {
            assert(data@ =~= Seq::new((width * height) as nat, |i: int| Terrain::Grassland));
        }
        TerrainMap::new(width, height, data)
    }

    pub fn size(&self) -> (r: (i32, i32))
        ensures
            r.0 == self.spec_width(),
            r.1 == self.spec_height(),
    {
        (self.width, self.height)
    }

    /// Returns terrain at a particular pos.
    ///
    /// We take care of converting `Pos` into `OffsetPos`. If out of
    /// bounds, returns the out-of-bounds terrain.
    pub fn get_terrain(&self, pos: Pos) -> (r: Terrain)
        requires
            self.wf(),
            offset_ok(pos),
        ensures
            r == self.spec_at(pos),
    {
        let opos = pos.to_offset_pos();
        if opos.x < 0 || opos.y < 0 || opos.x >= self.width || opos.y >= self.height {
            // out of bounds
            return Terrain::OutOfBounds;
        }
        proof {
            assert(opos.y * self.spec_width() + opos.x < self.spec_height() * self.spec_width())
                by (nonlinear_arith)
                requires
                    0 <= opos.x < self.spec_width(),
                    0 <= opos.y < self.spec_height(),
            ;
            assert(self.spec_height() * self.spec_width() == self.spec_width()
                * self.spec_height()) by (nonlinear_arith);
            assert(opos.y * self.spec_width() >= 0) by (nonlinear_arith)
                requires
                    opos.y >= 0,
                    self.spec_width() >= 0,
            ;
        }
        self.data[(opos.y * self.width + opos.x) as usize]
    }

    /// An iterator handing out each tile with its cube position.
    pub fn tiles(&self) -> (r: TilesIterator<'_>)
        ensures
            r.map() == self,
            r.spec_counter() == 0,
    {
        TilesIterator::new(self)
    }

    /// Total movement cost of every cell of the path after its origin.
    pub fn movement_cost(&self, path: &PosPath) -> (r: u8)
        requires
            self.wf(),
            path.wf(),
            forall|i: int| 1 <= i < path@.len() ==> offset_ok(#[trigger] path@[i]),
            spec_path_cost(self, path@) <= 255,
        ensures
            r == spec_path_cost(self, path@),
    {
        let cells = path.stack();
        let mut acc: u8 = 0;
        let mut i: usize = 1;
        proof {
            lemma_path_cost_prefix(self, path@, 1);
        }
        while i < cells.len()
            invariant
                self.wf(),
                1 <= i <= cells.len(),
                cells@ == path@,
                forall|j: int| 1 <= j < path@.len() ==> offset_ok(#[trigger] path@[j]),
                spec_path_cost(self, path@) <= 255,
                acc == spec_path_cost(self, path@.take(i as int)),
                acc <= spec_path_cost(self, path@),
            decreases cells.len() - i,
        {
            let t = self.get_terrain(cells[i]);
            proof {
                lemma_path_cost_prefix(self, path@, i + 1);
                assert(path@.take(i + 1).drop_last() =~= path@.take(i as int));
                assert(path@.take(i + 1).last() == path@[i as int]);
            }
            acc = acc + t.movement_cost();
            i = i + 1;
        }
        proof {
            assert(path@.take(path@.len() as int) =~= path@);
        }
        acc
    }
}

/// Sum of movement costs of every cell after the first.
pub open spec fn spec_path_cost(tm: &TerrainMap, cells: Seq<Pos>) -> int
    decreases cells.len(),
{
    if cells.len() <= 1 {
        0
    } else {
        spec_path_cost(tm, cells.drop_last()) + spec_movement_cost(tm.spec_at(cells.last()))
    }
}

/// Path cost grows monotonically with the prefix taken, by at least one
/// and at most two per added cell.
pub proof fn lemma_path_cost_prefix(tm: &TerrainMap, cells: Seq<Pos>, n: int)
    requires
        1 <= n <= cells.len(),
    ensures
        spec_path_cost(tm, cells.take(n)) <= spec_path_cost(tm, cells),
        0 <= spec_path_cost(tm, cells.take(n)),
        n - 1 <= spec_path_cost(tm, cells.take(n)) <= 2 * (n - 1),
    decreases cells.len(),
{
    if cells.len() <= 1 {
        assert(cells.take(n) =~= cells);
    } else if n == cells.len() {
        assert(cells.take(n) =~= cells);
        lemma_path_cost_prefix(tm, cells.drop_last(), n - 1);
        assert(cells.drop_last().take(n - 1) =~= cells.drop_last());
        assert(1 <= spec_movement_cost(tm.spec_at(cells.last())) <= 2);
    } else {
        lemma_path_cost_prefix(tm, cells.drop_last(), n);
        assert(cells.drop_last().take(n) =~= cells.take(n));
        assert(1 <= spec_movement_cost(tm.spec_at(cells.last())) <= 2);
    }
}

/// Walks the tiles of a terrain map in storage order, handing each out
/// with its cube position.
pub struct TilesIterator<'a> {
    map: &'a TerrainMap,
    counter: usize,
}

impl<'a> TilesIterator<'a> {
    pub closed spec fn map(&self) -> &'a TerrainMap {
        self.map
    }

    pub closed spec fn spec_counter(&self) -> int {
        self.counter as int
    }

    pub fn new(map: &'a TerrainMap) -> (r: TilesIterator<'a>)
        ensures
            r.map() == map,
            r.spec_counter() == 0,
    {
        TilesIterator { map, counter: 0 }
    }

    /// The cube position of the tile at storage index `i`.
    pub open spec fn spec_tile_pos(tm: &TerrainMap, i: int) -> Pos {
        let oy = i / tm.spec_width();
        let ox = i % tm.spec_width();
        let (cx, cy, cz) = spec_offset_to_cube(ox, oy);
        Pos { x: cx as i32, y: cy as i32, z: cz as i32 }
    }

    /// The next tile and its position, or `None` past the end.
    pub fn next(&mut self) -> (r: Option<(Pos, Terrain)>)
        requires
            old(self).map().wf(),
            old(self).map().spec_width() >= 1,
        ensures
            final(self).map() == old(self).map(),
            old(self).spec_counter() >= old(self).map().grid().len() ==> r is None
                && final(self).spec_counter() == old(self).spec_counter(),
            old(self).spec_counter() < old(self).map().grid().len() ==> {
                &&& final(self).spec_counter() == old(self).spec_counter() + 1
                &&& r matches Some(pt) && pt.0 == Self::spec_tile_pos(
                    old(self).map(),
                    old(self).spec_counter(),
                ) && pt.1 == old(self).map().grid()[old(self).spec_counter()]
            },
    {
        if self.counter >= self.map.data.len() {
            return None;
        }
        let index = self.counter;
        proof {
            assert(index < self.map.spec_width() * self.map.spec_height());
            assert(index as int / self.map.spec_width() < self.map.spec_height())
                by (nonlinear_arith)
                requires
                    self.map.spec_width() >= 1,
                    0 <= index as int,
                    (index as int) < self.map.spec_width() * self.map.spec_height(),
            ;
            assert(0 <= index as int / self.map.spec_width()) by (nonlinear_arith)
                requires
                    self.map.spec_width() >= 1,
                    0 <= index as int,
            ;
            assert(0 <= index as int % self.map.spec_width() < self.map.spec_width());
        }
        let w = self.map.width as usize;
        let y = (index / w) as i32;
        let x = (index % w) as i32;
        let t = self.map.data[index];
        self.counter = self.counter + 1;
        proof {
            let w = self.map.spec_width();
            let h = self.map.spec_height();
            assert((w - 1) * (h - 1) >= 0) by (nonlinear_arith)
                requires
                    w >= 1,
                    h >= 1,
            ;
            assert(w * h - w - h + 1 >= 0) by (nonlinear_arith)
                requires
                    (w - 1) * (h - 1) >= 0,
            ;
            assert(0 <= div2_trunc(x as int) <= x);
            assert(0 <= rem2_trunc(x as int) <= 1);
            assert(x as int + y as int <= w + h - 2);
        }
        let pos = OffsetPos::new(x, y).to_pos();
        Some((pos, t))
    }
}

} // verus!
