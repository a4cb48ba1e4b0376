//! Life Zone: the deterministic layer of a simulated community.

pub mod acting;
pub mod actions;
pub mod birth;
pub mod chance;
pub mod chronicle;
pub mod config;
pub mod course;
pub mod courting;
pub mod creature;
pub mod customs;
pub mod day;
pub mod death;
pub mod deeds;
pub mod detail;
pub mod digest;
pub mod display;
pub mod economy;
pub mod estates;
pub mod event;
pub mod flood;
pub mod grid;
pub mod heap;
pub mod history;
pub mod keeping;
pub mod knowledge;
pub mod land;
pub mod lists;
pub mod needs;
pub mod noise;
pub mod num;
pub mod nursery;
pub mod pace;
pub mod pathfind;
pub mod perception;
pub mod plans;
pub mod records;
pub mod runner;
pub mod saving;
pub mod season;
pub mod social;
pub mod terrain;
pub mod text;
pub mod thinking;
pub mod tick;
pub mod town;
pub mod world;
pub mod worldgen;
