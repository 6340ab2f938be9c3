//! Map data types: biomes, resources, and assembled maps.

use vstd::prelude::*;

verus! {

pub const MAX_MAP_WIDTH: u32 = 16384;

pub const MAX_MAP_HEIGHT: u32 = 16384;

#[derive(Debug, Clone, Copy, PartialEq)]
pub enum Biome {
    Sea,
    Shoal,
    Beach,
    Plains,
    Swamp,
    Forest,
    Desert,
    Scree,
    Mountain,
    SnowyMountain,
}

impl Biome {
    pub open spec fn spec_localized_name(self) -> Seq<char> {
        match self {
            Biome::Sea => "Sea"@,
            Biome::Shoal => "Shoal"@,
            Biome::Beach => "Beach"@,
            Biome::Plains => "Plains"@,
            Biome::Swamp => "Swamp"@,
            Biome::Forest => "Forest"@,
            Biome::Desert => "Desert"@,
            Biome::Scree => "Scree"@,
            Biome::Mountain => "Mountain"@,
            Biome::SnowyMountain => "Snowy mountain"@,
        }
    }

    pub fn all() -> (r: [Biome; 10])
        ensures
            r@ == seq![
                Biome::Sea,
                Biome::Shoal,
                Biome::Beach,
                Biome::Plains,
                Biome::Swamp,
                Biome::Forest,
                Biome::Desert,
                Biome::Scree,
                Biome::Mountain,
                Biome::SnowyMountain,
            ],
    {
        let r = [
            Biome::Sea,
            Biome::Shoal,
            Biome::Beach,
            Biome::Plains,
            Biome::Swamp,
            Biome::Forest,
            Biome::Desert,
            Biome::Scree,
            Biome::Mountain,
            Biome::SnowyMountain,
        ];
        proof {
            assert(r@ =~= seq![
                Biome::Sea,
                Biome::Shoal,
                Biome::Beach,
                Biome::Plains,
                Biome::Swamp,
                Biome::Forest,
                Biome::Desert,
                Biome::Scree,
                Biome::Mountain,
                Biome::SnowyMountain,
            ]);
        }
        r
    }

    pub fn localized_name(&self) -> (r: &'static str)
        ensures
            r@ == self.spec_localized_name(),
    {
        match self {
            Biome::Sea => "Sea",
            Biome::Shoal => "Shoal",
            Biome::Beach => "Beach",
            Biome::Plains => "Plains",
            Biome::Swamp => "Swamp",
            Biome::Forest => "Forest",
            Biome::Desert => "Desert",
            Biome::Scree => "Scree",
            Biome::Mountain => "Mountain",
            Biome::SnowyMountain => "Snowy mountain",
        }
    }
}

#[derive(Debug, Clone, Copy, PartialEq)]
pub enum Resource {
    Compound { count: u8 },
    Rock,
    Fruit,
    PoisonedFruit,
    FireCrystal,
    EnigmaticCrystal,
}

/// One map cell: its biome and up to four resources.
pub type MapCell = (Biome, [Option<Resource>; 4]);

/// A finished biome/resource map.
#[derive(Debug)]
pub struct BiomeMap {
    pub size: (u32, u32),
    pub biomes: Vec<MapCell>,
}

impl BiomeMap {
    pub fn new(size: (u32, u32), biomes: Vec<MapCell>) -> (r: BiomeMap)
        requires
            biomes.len() == size.0 * size.1,
        ensures
            r.size == size,
            r.biomes == biomes,
    {
        BiomeMap { size, biomes }
    }

    pub fn disassemble(self) -> (r: ((u32, u32), Vec<MapCell>))
        ensures
            r.0 == self.size,
            r.1 == self.biomes,
    {
        (self.size, self.biomes)
    }
}

/// A landscape height map. Heights are raw signed fixed-point values with
/// twenty fractional bits.
#[derive(Debug)]
pub struct Landscape {
    pub size: (u32, u32),
    pub height: Vec<i32>,
}

impl Landscape {
    pub fn new(size: (u32, u32), height: Vec<i32>) -> (r: Landscape)
        requires
            height.len() == size.0 * size.1,
        ensures
            r.size == size,
            r.height == height,
    {
        Landscape { size, height }
    }

    pub fn disassemble(self) -> (r: ((u32, u32), Vec<i32>))
        ensures
            r.0 == self.size,
            r.1 == self.height,
    {
        (self.size, self.height)
    }
}

} // verus!
