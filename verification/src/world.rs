//! The tile grid that every other module reads: terrain, connected regions and
//! resource deposits.
use vstd::prelude::*;

verus! {

/// Terrain classes, in the order of their texture codes.
#[derive(Clone, Copy, Debug, PartialEq, Eq, Hash, Structural)]
pub enum Terrain {
    DeepWater,
    ShallowWater,
    Beach,
    Plains,
    Grassland,
    Forest,
    DenseForest,
    Hills,
    Mountain,
    SnowPeak,
    Desert,
    Tundra,
    Swamp,
}

/// Movement cost of a terrain, in tenths of a step over open plains; `None` where the
/// terrain cannot be entered.
pub open spec fn spec_movement_cost(terrain: Terrain) -> Option<u32> {
    match terrain {
        Terrain::DeepWater | Terrain::ShallowWater | Terrain::SnowPeak => None,
        Terrain::Plains | Terrain::Grassland => Some(10),
        Terrain::Beach => Some(12),
        Terrain::Forest | Terrain::Desert | Terrain::Tundra => Some(15),
        Terrain::DenseForest | Terrain::Hills => Some(20),
        Terrain::Swamp => Some(25),
        Terrain::Mountain => Some(30),
    }
}

pub open spec fn spec_is_water(terrain: Terrain) -> bool {
    terrain == Terrain::DeepWater || terrain == Terrain::ShallowWater
}

pub open spec fn spec_is_walkable(terrain: Terrain) -> bool {
    spec_movement_cost(terrain) is Some
}

pub open spec fn spec_terrain_code(terrain: Terrain) -> u8 {
    match terrain {
        Terrain::DeepWater => 0,
        Terrain::ShallowWater => 1,
        Terrain::Beach => 2,
        Terrain::Plains => 3,
        Terrain::Grassland => 4,
        Terrain::Forest => 5,
        Terrain::DenseForest => 6,
        Terrain::Hills => 7,
        Terrain::Mountain => 8,
        Terrain::SnowPeak => 9,
        Terrain::Desert => 10,
        Terrain::Tundra => 11,
        Terrain::Swamp => 12,
    }
}

impl Terrain {
    pub fn is_water(self) -> (r: bool)
        ensures
            r == spec_is_water(self),
    {
        match self {
            Terrain::DeepWater | Terrain::ShallowWater => true,
            _ => false,
        }
    }

    pub fn is_walkable(self) -> (r: bool)
        ensures
            r == spec_is_walkable(self),
    {
        self.movement_cost().is_some()
    }

    pub fn movement_cost(self) -> (r: Option<u32>)
        ensures
            r == spec_movement_cost(self),
    {
        match self {
            Terrain::DeepWater | Terrain::ShallowWater | Terrain::SnowPeak => None,
            Terrain::Plains | Terrain::Grassland => Some(10),
            Terrain::Beach => Some(12),
            Terrain::Forest | Terrain::Desert | Terrain::Tundra => Some(15),
            Terrain::DenseForest | Terrain::Hills => Some(20),
            Terrain::Swamp => Some(25),
            Terrain::Mountain => Some(30),
        }
    }

    /// The byte that textures and state hashes use for this terrain.
    pub fn code(self) -> (r: u8)
        ensures
            r == spec_terrain_code(self),
    {
        match self {
            Terrain::DeepWater => 0,
            Terrain::ShallowWater => 1,
            Terrain::Beach => 2,
            Terrain::Plains => 3,
            Terrain::Grassland => 4,
            Terrain::Forest => 5,
            Terrain::DenseForest => 6,
            Terrain::Hills => 7,
            Terrain::Mountain => 8,
            Terrain::SnowPeak => 9,
            Terrain::Desert => 10,
            Terrain::Tundra => 11,
            Terrain::Swamp => 12,
        }
    }

    pub fn label(self) -> (r: &'static str)
        ensures
            r@ == spec_terrain_label(self),
    {
        match self {
            Terrain::DeepWater => "Deep Water",
            Terrain::ShallowWater => "Shallow Water",
            Terrain::Beach => "Beach",
            Terrain::Plains => "Plains",
            Terrain::Grassland => "Grassland",
            Terrain::Forest => "Forest",
            Terrain::DenseForest => "Dense Forest",
            Terrain::Hills => "Hills",
            Terrain::Mountain => "Mountain",
            Terrain::SnowPeak => "Snow Peak",
            Terrain::Desert => "Desert",
            Terrain::Tundra => "Tundra",
            Terrain::Swamp => "Swamp",
        }
    }
}

pub open spec fn spec_terrain_label(terrain: Terrain) -> Seq<char> {
    match terrain {
        Terrain::DeepWater => "Deep Water"@,
        Terrain::ShallowWater => "Shallow Water"@,
        Terrain::Beach => "Beach"@,
        Terrain::Plains => "Plains"@,
        Terrain::Grassland => "Grassland"@,
        Terrain::Forest => "Forest"@,
        Terrain::DenseForest => "Dense Forest"@,
        Terrain::Hills => "Hills"@,
        Terrain::Mountain => "Mountain"@,
        Terrain::SnowPeak => "Snow Peak"@,
        Terrain::Desert => "Desert"@,
        Terrain::Tundra => "Tundra"@,
        Terrain::Swamp => "Swamp"@,
    }
}

/// Natural resources that deposits hold.
#[derive(Clone, Copy, Debug, PartialEq, Eq, Hash, Structural)]
pub enum ResourceKind {
    Food,
    Timber,
    Stone,
    Iron,
}

/// Texture code of a resource kind; zero is reserved for "no deposit".
pub open spec fn spec_resource_code(kind: ResourceKind) -> u8 {
    match kind {
        ResourceKind::Food => 1,
        ResourceKind::Timber => 2,
        ResourceKind::Stone => 3,
        ResourceKind::Iron => 4,
    }
}

impl ResourceKind {
    pub fn code(self) -> (r: u8)
        ensures
            r == spec_resource_code(self),
    {
        match self {
            ResourceKind::Food => 1,
            ResourceKind::Timber => 2,
            ResourceKind::Stone => 3,
            ResourceKind::Iron => 4,
        }
    }

    pub fn label(self) -> (r: &'static str)
        ensures
            r@ == spec_resource_label(self),
    {
        match self {
            ResourceKind::Food => "Food",
            ResourceKind::Timber => "Timber",
            ResourceKind::Stone => "Stone",
            ResourceKind::Iron => "Iron",
        }
    }
}

pub open spec fn spec_resource_label(kind: ResourceKind) -> Seq<char> {
    match kind {
        ResourceKind::Food => "Food"@,
        ResourceKind::Timber => "Timber"@,
        ResourceKind::Stone => "Stone"@,
        ResourceKind::Iron => "Iron"@,
    }
}

#[derive(Clone, Copy, Debug, PartialEq, Eq, Structural)]
pub struct ResourceDeposit {
    pub kind: ResourceKind,
    pub amount: u16,
}

/// A deposit that grows back toward `capacity` at tile `index`.
#[derive(Clone, Copy, Debug, PartialEq, Eq, Structural)]
pub struct RenewableResource {
    pub index: usize,
    pub kind: ResourceKind,
    pub capacity: u16,
}

#[derive(Clone, Copy, Debug, PartialEq, Eq, Structural)]
pub enum RegionKind {
    Land,
    Water,
}

/// A maximal 4-connected set of tiles of one kind.
#[derive(Clone, Copy, Debug, PartialEq, Eq, Structural)]
pub struct Region {
    pub kind: RegionKind,
    pub tile_count: u32,
    pub min_x: u32,
    pub min_y: u32,
    pub max_x: u32,
    pub max_y: u32,
    pub touches_border: bool,
}

#[derive(Clone, Copy, Debug, PartialEq, Eq, Structural)]
pub struct Tile {
    pub terrain: Terrain,
}

/// `y * width + x` computed without overflow.
pub fn wide_index(width: u32, x: u32, y: u32) -> (r: u64)
    ensures
        r == spec_index(width as int, x as int, y as int),
{
    assert(y * width + x <= u64::MAX) by (nonlinear_arith)
        requires
            y <= u32::MAX,
            width <= u32::MAX,
            x <= u32::MAX,
    ;
    y as u64 * width as u64 + x as u64
}

/// Marker stored in `region_ids` for a tile that no region has claimed.
pub const NO_REGION: u32 = 0xffff_ffff;

pub struct Grid {
    pub width: u32,
    pub height: u32,
    pub tiles: Vec<Tile>,
    /// Region of each tile, or `NO_REGION`; empty until regions are detected.
    pub region_ids: Vec<u32>,
    pub regions: Vec<Region>,
    pub resources: Vec<Option<ResourceDeposit>>,
    pub renewable_resources: Vec<RenewableResource>,
}

/// Row-major index of a coordinate.
pub open spec fn spec_index(width: int, x: int, y: int) -> int {
    y * width + x
}

impl Grid {
    /// One tile per coordinate, and a tile count that `u32` arithmetic can address.
    pub open spec fn wf(&self) -> bool {
        &&& self.tiles@.len() == self.width * self.height
        &&& self.width * self.height <= u32::MAX
    }

    pub open spec fn tile_count(&self) -> int {
        self.width * self.height
    }

    pub open spec fn in_bounds(&self, x: int, y: int) -> bool {
        0 <= x < self.width && 0 <= y < self.height
    }

    pub open spec fn spec_get(&self, x: int, y: int) -> Option<Tile> {
        if self.in_bounds(x, y) && spec_index(self.width as int, x, y) < self.tiles@.len() {
            Some(self.tiles@[spec_index(self.width as int, x, y)])
        } else {
            None
        }
    }

    /// The tile exists and can be entered.
    pub open spec fn walkable(&self, x: int, y: int) -> bool {
        self.spec_get(x, y) matches Some(t) && spec_is_walkable(t.terrain)
    }

    pub open spec fn spec_region_id_at(&self, x: int, y: int) -> Option<u32> {
        if self.in_bounds(x, y) && spec_index(self.width as int, x, y) < self.region_ids@.len()
            && self.region_ids@[spec_index(self.width as int, x, y)] != NO_REGION {
            Some(self.region_ids@[spec_index(self.width as int, x, y)])
        } else {
            None
        }
    }

    pub open spec fn is_water_at(&self, x: int, y: int) -> bool {
        self.spec_get(x, y) matches Some(t) && spec_is_water(t.terrain)
    }

    pub open spec fn spec_is_coastal(&self, x: int, y: int) -> bool {
        &&& self.spec_get(x, y) matches Some(t) && !spec_is_water(t.terrain)
        &&& {
            ||| self.is_water_at(x - 1, y)
            ||| self.is_water_at(x + 1, y)
            ||| self.is_water_at(x, y - 1)
            ||| self.is_water_at(x, y + 1)
        }
    }

    pub fn get(&self, x: u32, y: u32) -> (r: Option<&Tile>)
        ensures
            r matches Some(t) ==> self.spec_get(x as int, y as int) == Some(*t),
            r is None ==> self.spec_get(x as int, y as int) is None,
    {
        if x >= self.width || y >= self.height {
            return None;
        }
        let index = wide_index(self.width, x, y);
        if index < self.tiles.len() as u64 {
            Some(&self.tiles[index as usize])
        } else {
            None
        }
    }

    pub fn region_id_at(&self, x: u32, y: u32) -> (r: Option<u32>)
        ensures
            r == self.spec_region_id_at(x as int, y as int),
    {
        if x >= self.width || y >= self.height {
            return None;
        }
        let index = wide_index(self.width, x, y);
        if index < self.region_ids.len() as u64 {
            let id = self.region_ids[index as usize];
            if id != NO_REGION {
                return Some(id);
            }
        }
        None
    }

    /// Whether the tile exists and can be entered.
    pub fn is_walkable_at(&self, x: u32, y: u32) -> (r: bool)
        ensures
            r == self.walkable(x as int, y as int),
    {
        match self.get(x, y) {
            Some(tile) => tile.terrain.is_walkable(),
            None => false,
        }
    }

    fn is_water_tile(&self, x: u32, y: u32) -> (r: bool)
        ensures
            r == self.is_water_at(x as int, y as int),
    {
        match self.get(x, y) {
            Some(tile) => tile.terrain.is_water(),
            None => false,
        }
    }

    /// A dry tile with open water on one of its four sides.
    pub fn is_coastal(&self, x: u32, y: u32) -> (r: bool)
        ensures
            r == self.spec_is_coastal(x as int, y as int),
    {
        let dry = match self.get(x, y) {
            Some(tile) => !tile.terrain.is_water(),
            None => false,
        };
        if !dry {
            return false;
        }
        (x > 0 && self.is_water_tile(x - 1, y))
            || (x < u32::MAX && self.is_water_tile(x + 1, y))
            || (y > 0 && self.is_water_tile(x, y - 1))
            || (y < u32::MAX && self.is_water_tile(x, y + 1))
    }
}

/// `y * width + x` addresses a tile inside the grid exactly when the coordinate does,
/// and the coordinate can be read back from it.
pub proof fn lemma_index_in_grid(width: int, height: int, x: int, y: int)
    requires
        0 <= x < width,
        0 <= y < height,
    ensures
        0 <= spec_index(width, x, y) < width * height,
        spec_index(width, x, y) / width == y,
        spec_index(width, x, y) % width == x,
{
    assert(0 <= y * width + x < width * height) by (nonlinear_arith)
        requires
            0 <= x < width,
            0 <= y < height,
    ;
    vstd::arithmetic::div_mod::lemma_fundamental_div_mod_converse(y * width + x, width, y, x);
}

/// Every index of a grid names a coordinate inside it.
pub proof fn lemma_coordinate_of_index(width: int, height: int, index: int)
    requires
        0 <= index < width * height,
        width > 0,
    ensures
        0 <= index % width < width,
        0 <= index / width < height,
        spec_index(width, index % width, index / width) == index,
{
    vstd::arithmetic::div_mod::lemma_fundamental_div_mod(index, width);
    vstd::arithmetic::div_mod::lemma_mod_bound(index, width);
    vstd::arithmetic::div_mod::lemma_div_pos_is_pos(index, width);
    let q = index / width;
    assert(q * width == width * q) by (nonlinear_arith);
    assert(q < height) by (nonlinear_arith)
        requires
            index == width * q + index % width,
            index % width >= 0,
            index < width * height,
            width > 0,
    ;
}

} // verus!
