//! World-editor model types: edit modes, view modes, and the maps being
//! edited.

use vstd::prelude::*;
use crate::map::BiomeMap;
use crate::map::Landscape;

verus! {

#[derive(Debug, Clone, Copy, PartialEq)]
pub enum HeightBrush {
    AddHeight,
    RemoveHeight,
    SetHeight,
    Aline,
}

impl HeightBrush {
    pub fn all() -> (r: [HeightBrush; 4])
        ensures
            r@ == seq![
                HeightBrush::AddHeight,
                HeightBrush::RemoveHeight,
                HeightBrush::SetHeight,
                HeightBrush::Aline,
            ],
    {
        let r = [
            HeightBrush::AddHeight,
            HeightBrush::RemoveHeight,
            HeightBrush::SetHeight,
            HeightBrush::Aline,
        ];
        proof {
            assert(r@ =~= seq![
                HeightBrush::AddHeight,
                HeightBrush::RemoveHeight,
                HeightBrush::SetHeight,
                HeightBrush::Aline,
            ]);
        }
        r
    }
}

#[derive(Debug, Clone, Copy, PartialEq)]
pub enum MapType {
    Landscape,
    Biomes,
}

/// A map under edit: either a landscape height map or a biome map.
#[derive(Debug)]
pub enum EditMap {
    Landscape(Landscape),
    Biomes(BiomeMap),
}

impl EditMap {
    pub fn get_type(&self) -> (r: MapType)
        ensures
            r == match *self {
                EditMap::Landscape(_) => MapType::Landscape,
                EditMap::Biomes(_) => MapType::Biomes,
            },
    {
        match self {
            EditMap::Landscape(_) => MapType::Landscape,
            EditMap::Biomes(_) => MapType::Biomes,
        }
    }
}

#[derive(Debug, Clone, Copy, PartialEq)]
pub enum LandscapeView {
    Height,
    HeightColors,
    BasicBiomes,
}

impl LandscapeView {
    pub open spec fn spec_localized_name(self) -> Seq<char> {
        match self {
            LandscapeView::Height => "Height"@,
            LandscapeView::HeightColors => "Height (colors)"@,
            LandscapeView::BasicBiomes => "Basic biomes"@,
        }
    }

    pub fn all() -> (r: [LandscapeView; 3])
        ensures
            r@ == seq![LandscapeView::Height, LandscapeView::HeightColors, LandscapeView::BasicBiomes],
    {
        let r = [LandscapeView::Height, LandscapeView::HeightColors, LandscapeView::BasicBiomes];
        proof {
            assert(r@ =~= seq![LandscapeView::Height, LandscapeView::HeightColors, LandscapeView::BasicBiomes]);
        }
        r
    }

    pub fn localized_name(&self) -> (r: &'static str)
        ensures
            r@ == self.spec_localized_name(),
    {
        match self {
            LandscapeView::Height => "Height",
            LandscapeView::HeightColors => "Height (colors)",
            LandscapeView::BasicBiomes => "Basic biomes",
        }
    }
}

/// The biome page of the world editor. It holds no state yet.
#[derive(Debug, Clone)]
pub struct BiomesEditor {}

impl BiomesEditor {
    pub fn new() -> (r: BiomesEditor) {
        BiomesEditor {  }
    }
}

} // verus!
