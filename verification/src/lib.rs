//! The decision core of an autonomous agent on a partially observed grid
//! world: frontier-driven exploration, cost-aware pathfinding with teleport
//! shortcuts, spatial analysis of explored sectors, road planning and paving
//! recovery, and the mission scheduler that alternates between them.

pub mod tiles;
pub mod biomes;
pub mod utils;
pub mod coord_pool;
pub mod explorer;
pub mod resources;
pub mod scheduler;
pub mod road_builder;
pub mod morans;
pub mod dbscan;
pub mod sector_analyzer;
pub mod pathfinder;
