//! The terrain driver.
//!
//! Owns the height field and the erosion simulator for a fixed grid size:
//! generation runs once at construction, and every tick advances the
//! field by exactly one erosion iteration seeded with the tick number.
//! The current field is readable between ticks; nothing else mutates it.

use vstd::prelude::*;
use crate::continent::generate_map;
use crate::continent::spec_generate;
use crate::continent::walks_ok;
use crate::continent::int_view;
use crate::erosion::Erosion;
use crate::erosion::spec_erode_n;
use crate::brush::brush_view;
use crate::erosion::hview;
use crate::smoother::ShapeSmoother;

verus! {

pub struct World {
    pub size: (usize, usize),
    pub tick: u64,
    pub landscape: Vec<i32>,
    pub erosion: Erosion,
}

impl World {
    pub open spec fn wf(self) -> bool {
        &&& self.erosion.wf()
        &&& self.erosion.size == self.size
        &&& self.landscape.len() == self.size.0 * self.size.1
    }

    /// Create a world: generate the continents once, then stand ready to
    /// erode. The coherent-noise contribution is supplied per cell in
    /// fixed point.
    pub fn new(
        size: (usize, usize),
        motion_length: u32,
        continents_count: u32,
        erosion_radius: u32,
        noise: Vec<i32>,
    ) -> (r: World)
        requires
            size.0 >= 1,
            size.1 >= 1,
            size.0 * size.1 <= 0x4000_0000,
            noise.len() == size.0 * size.1,
            motion_length >= 2,
            continents_count <= 0x4000_0000,
            1 <= erosion_radius,
            (erosion_radius as int) < size.0,
            (erosion_radius as int) < size.1,
            forall|i: int|
                0 <= i < noise@.len() ==> -1_000_000 <= (#[trigger] noise@[i]) <= 1_000_000,
        ensures
            r.wf(),
            r.size == size,
            r.tick == 0,
            exists|ws: Seq<Seq<(int, int)>>|
                walks_ok(ws, continents_count as int, motion_length as int) && int_view(
                    r.landscape@,
                ) == spec_generate(size.0 as int, size.1 as int, ws, int_view(noise@)),
    {
        let smoother = ShapeSmoother::new();
        let landscape = generate_map(size, motion_length, continents_count, &smoother, &noise);
        let erosion = Erosion::new(size, erosion_radius);
        World { size, tick: 0, landscape, erosion }
    }

    pub fn size(&self) -> (r: (usize, usize))
        ensures
            r == self.size,
    {
        self.size
    }

    pub fn cur_tick(&self) -> (r: u64)
        ensures
            r == self.tick,
    {
        self.tick
    }

    /// The current height field, valid and unchanged until the next tick.
    pub fn height_field(&self) -> (r: &Vec<i32>)
        ensures
            r@ == self.landscape@,
    {
        &self.landscape
    }

    /// Advance one tick: exactly one erosion iteration, seeded with the
    /// tick number.
    pub fn update(&mut self)
        requires
            old(self).wf(),
            old(self).tick < 0xFFFF_FFFF_FFFF_FFFF,
        ensures
            final(self).wf(),
            final(self).size == old(self).size,
            final(self).erosion == old(self).erosion,
            final(self).tick == old(self).tick + 1,
            hview(final(self).landscape@) == spec_erode_n(
                hview(old(self).landscape@),
                brush_view(old(self).erosion.brush@),
                old(self).size.0 as int,
                old(self).size.1 as int,
                old(self).tick as int,
                1,
            ),
    {
        let mut tex: Vec<i32> = Vec::new();
        core::mem::swap(&mut tex, &mut self.landscape);
        let res = self.erosion.erode(tex, 1, self.tick);
        self.landscape = res;
        self.tick = self.tick + 1;
    }
}

} // verus!
