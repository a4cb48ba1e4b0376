//! Terrain types.

use crate::num::{num, Num, INF_BITS};
use vstd::prelude::*;

verus! {

/// Stored as one byte per tile. The order of the variants is part of the
/// on-disk format: append new ones, never reorder existing ones.
#[derive(Debug, Clone, Copy, PartialEq, Eq, Hash, Structural)]
pub enum Terrain {
    DeepWater,
    ShallowWater,
    Sand,
    Grass,
    Forest,
    Soil,
    Hill,
}

/// 1.0
pub const COST_PLAIN: u32 = 0x3F80_0000;

/// 1.2
pub const COST_SAND: u32 = 0x3F99_999A;

/// 1.8
pub const COST_ROUGH: u32 = 0x3FE6_6666;

/// 2.2
pub const COST_SHALLOWS: u32 = 0x400C_CCCD;

impl Terrain {
    /// The byte a tile is stored as.
    pub open spec fn code_spec(self) -> u8 {
        match self {
            Terrain::DeepWater => 0,
            Terrain::ShallowWater => 1,
            Terrain::Sand => 2,
            Terrain::Grass => 3,
            Terrain::Forest => 4,
            Terrain::Soil => 5,
            Terrain::Hill => 6,
        }
    }

    #[verifier::when_used_as_spec(code_spec)]
    pub fn code(self) -> (v: u8)
        ensures
            v == self.code_spec(),
    {
        match self {
            Terrain::DeepWater => 0,
            Terrain::ShallowWater => 1,
            Terrain::Sand => 2,
            Terrain::Grass => 3,
            Terrain::Forest => 4,
            Terrain::Soil => 5,
            Terrain::Hill => 6,
        }
    }

    /// The terrain a byte stands for; none beyond the last variant.
    pub fn from_u8(v: u8) -> (r: Option<Self>)
        ensures
            v <= 6 <==> r is Some,
            r matches Some(t) ==> t.code() == v,
    {
        Some(
            match v {
                0 => Terrain::DeepWater,
                1 => Terrain::ShallowWater,
                2 => Terrain::Sand,
                3 => Terrain::Grass,
                4 => Terrain::Forest,
                5 => Terrain::Soil,
                6 => Terrain::Hill,
                _ => return None,
            },
        )
    }

    pub open spec fn passable_spec(self) -> bool {
        self != Terrain::DeepWater
    }

    /// Deep water is the only impassable terrain; it exists as a visual boundary.
    #[verifier::when_used_as_spec(passable_spec)]
    pub fn passable(self) -> (r: bool)
        ensures
            r == self.passable_spec(),
    {
        !matches!(self, Terrain::DeepWater)
    }

    pub open spec fn move_cost_spec(self) -> Num {
        Num {
            bits: match self {
                Terrain::DeepWater => INF_BITS,
                Terrain::ShallowWater => COST_SHALLOWS,
                Terrain::Forest | Terrain::Hill => COST_ROUGH,
                Terrain::Sand => COST_SAND,
                Terrain::Grass | Terrain::Soil => COST_PLAIN,
            },
        }
    }

    /// Relative cost of entering this tile. Forest, hills and shallow water are
    /// passable but slow.
    #[verifier::when_used_as_spec(move_cost_spec)]
    pub fn move_cost(self) -> (r: Num)
        ensures
            r == self.move_cost_spec(),
            r.finite() <==> self.passable(),
    {
        let bits = match self {
            Terrain::DeepWater => INF_BITS,
            Terrain::ShallowWater => COST_SHALLOWS,
            Terrain::Forest | Terrain::Hill => COST_ROUGH,
            Terrain::Sand => COST_SAND,
            Terrain::Grass | Terrain::Soil => COST_PLAIN,
        };
        Num { bits }
    }

    pub open spec fn is_water_spec(self) -> bool {
        self == Terrain::DeepWater || self == Terrain::ShallowWater
    }

    #[verifier::when_used_as_spec(is_water_spec)]
    pub fn is_water(self) -> (r: bool)
        ensures
            r == self.is_water_spec(),
    {
        matches!(self, Terrain::DeepWater | Terrain::ShallowWater)
    }

    pub open spec fn is_fresh_water_spec(self) -> bool {
        self == Terrain::ShallowWater
    }

    /// Drinkable in place.
    #[verifier::when_used_as_spec(is_fresh_water_spec)]
    pub fn is_fresh_water(self) -> (r: bool)
        ensures
            r == self.is_fresh_water_spec(),
    {
        matches!(self, Terrain::ShallowWater)
    }
}

/// No two terrains share a byte, so what was stored is what is read back.
pub proof fn law_codes_are_distinct(a: Terrain, b: Terrain)
    ensures
        a.code() <= 6,
        a.code() == b.code() ==> a == b,
{
}

/// Only deep water cannot be crossed, and only shallow water is fresh. Grass and soil
/// are the easiest going, then sand, then forest and hill, and the shallows are the
/// hardest; nothing that can be crossed costs nothing.
pub proof fn law_how_the_ground_is(t: Terrain)
    ensures
        t.passable() <==> t != Terrain::DeepWater,
        t.is_water() <==> t == Terrain::DeepWater || t == Terrain::ShallowWater,
        t.is_fresh_water() <==> t == Terrain::ShallowWater,
        t.is_fresh_water() ==> t.is_water() && t.passable(),
        t.passable() <==> t.move_cost().finite(),
        num(0x3F80_0000).le(t.move_cost()),
        Terrain::Grass.move_cost() == num(0x3F80_0000) && Terrain::Soil.move_cost() == num(0x3F80_0000),
        Terrain::Grass.move_cost().lt(Terrain::Sand.move_cost()),
        Terrain::Sand.move_cost().lt(Terrain::Forest.move_cost()),
        Terrain::Forest.move_cost() == Terrain::Hill.move_cost(),
        Terrain::Hill.move_cost().lt(Terrain::ShallowWater.move_cost()),
{
}

} // verus!
