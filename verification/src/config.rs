//! Everything about a run that is chosen before it starts.

use crate::num::Num;
use vstd::prelude::*;

verus! {

#[derive(Debug, Clone, Copy)]
pub struct LifespanConfig {
    pub baseline_ticks: u32,
    pub ceiling_ticks: u32,
    pub infant_until_tick: u32,
    pub elder_from_tick: u32,
    pub unsheltered_night_penalty_ticks: Num,
    pub malnutrition_aging_multiplier: Num,
}

#[derive(Debug, Clone, Copy)]
pub struct NeedsConfig {
    pub hunger_decay_per_tick: Num,
    pub thirst_decay_per_tick: Num,
    pub fatigue_decay_per_tick: Num,
    pub warmth_decay_night: Num,
    pub deficit_threshold: Num,
    pub critical_threshold: Num,
    pub health_erosion_per_tick: Num,
    pub health_regen_per_tick: Num,
}

#[derive(Debug, Clone, Copy)]
pub struct ActionsConfig {
    pub carry_capacity: Num,
    pub move_speed: Num,
    pub gather_forage_per_tick: Num,
    pub night_forage_scale: Num,
    pub chop_wood_per_tick: Num,
    pub harvest_wheat_per_tick: Num,
    pub drink_restore: Num,
    pub eat_portion: Num,
    pub rest_restore: Num,
    pub rest_restore_sheltered: Num,
    pub fire_wood_cost: Num,
    pub fire_warmth: Num,
    pub fire_warmth_radius: u32,
    pub shelter_warmth: Num,
    pub shelter_wood_cost: Num,
    pub shelter_build_ticks: u32,
    pub shelter_capacity: u32,
    pub shelter_decay_per_tick: Num,
    pub slaughter_yield: Num,
    pub plant_ticks: u32,
    pub tend_ticks: u32,
    pub night_start_hour: u32,
    pub night_end_hour: u32,
}

#[derive(Debug, Clone, Copy)]
pub struct ResourcesConfig {
    pub forage_spoil_ticks: u32,
    pub meat_spoil_ticks: u32,
    /// Grain keeps unless a shelf life is given.
    pub grain_spoil_ticks: Option<u32>,
    pub fire_fuel_burn_per_tick: Num,
    pub sheep_flocks: u32,
    pub wheat_growth_ticks: u32,
    /// What fraction of the forest bears wood, and what fraction bears forage.
    pub wood_density: Num,
    pub forage_density: Num,
    /// What fraction of the soil bears wheat.
    pub soil_density: Num,
    pub wood_regen_per_tick: Num,
    pub forage_regen_per_tick: Num,
}

#[derive(Debug, Clone, Copy)]
pub struct FeaturesConfig {
    pub spoilage: bool,
    pub fires: bool,
    pub wheat: bool,
    pub sheep: bool,
    pub knowledge_sharing: bool,
    pub llm: bool,
}

#[derive(Debug, Clone, Copy)]
pub struct KnowledgeConfig {
    pub observation_radius: u32,
    pub max_beliefs_held: u32,
    pub confidence_decay_per_tick: Num,
    pub per_hop_penalty: Num,
    pub teach_fidelity: Num,
    pub ambient_confidence: Num,
    pub ambient_share_chance: Num,
    pub share_belief_count: u32,
    pub teach_belief_count: u32,
}

#[derive(Debug, Clone, Copy)]
pub struct ReproductionConfig {
    pub courtship_offer_ticks: u32,
    pub gestation_ticks: u32,
    pub birth_spacing_ticks: u32,
    pub store_reserve: Num,
    pub health_floor: Num,
    pub birth_store_cost: Num,
    pub mutation_sigma: Num,
    pub childbirth_mortality: Num,
}

#[derive(Debug, Clone, Copy)]
pub struct HazardsConfig {
    pub accident_per_tick: Num,
    pub illness_per_tick: Num,
    pub illness_low_health_multiplier: Num,
}

#[derive(Debug, Clone, Copy)]
pub struct DeliberationConfig {
    pub horizon_cap_travel: u32,
    pub horizon_cap_gather: u32,
    pub horizon_cap_construction: u32,
    pub horizon_cap_crisis: u32,
    pub dispatch_ttl_ticks: u32,
    pub budget_observe: u32,
}

#[derive(Debug, Clone, Copy)]
pub struct MapConfig {
    pub width: u32,
    pub height: u32,
    pub chunk_size: u32,
    pub founder_count: u32,
}

#[derive(Debug, Clone, Copy)]
pub struct PersistenceConfig {
    pub checkpoint_interval_ticks: u32,
    pub sample_interval_ticks: u32,
}

#[derive(Debug, Clone, Copy)]
pub struct BenchConfig {
    /// Hold the census at this many by sending in settlers.
    pub maintain_population: Option<u32>,
    /// Start with this many, in place of the founders.
    pub initial_creatures: Option<u32>,
}

#[derive(Debug, Clone, Copy)]
pub struct WorldConfig {
    pub map: MapConfig,
    pub lifespan: LifespanConfig,
    pub needs: NeedsConfig,
    pub actions: ActionsConfig,
    pub resources: ResourcesConfig,
    pub hazards: HazardsConfig,
    pub reproduction: ReproductionConfig,
    pub knowledge: KnowledgeConfig,
    pub deliberation: DeliberationConfig,
    pub persistence: PersistenceConfig,
    pub features: FeaturesConfig,
    pub bench: BenchConfig,
}

} // verus!
