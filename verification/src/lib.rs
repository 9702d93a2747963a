//! Deterministic rules for a hex-based real-time strategy simulation.
//!
//! The library holds the pure integer logic of the game. It uses no engine,
//! network, database, wall clock or random source: every function maps ordered
//! inputs to a reproducible result, and its contract says which one.
pub mod agenda;
pub mod apportion;
pub mod axials;
pub mod branch_law;
pub mod branching;
pub mod capture;
pub mod chunks;
pub mod client;
pub mod climate_law;
pub mod coast;
pub mod combat;
pub mod combat_law;
pub mod commands;
pub mod connection;
pub mod connectivity;
pub mod conquest;
pub mod contest;
pub mod continent;
pub mod coord;
pub mod deltas;
pub mod dispatch;
pub mod fairness;
pub mod fill;
pub mod fingerprint;
pub mod flood;
pub mod flows;
pub mod front;
pub mod front_law;
pub mod gameplay;
pub mod ground_law;
pub mod host;
pub mod hydrology;
pub mod impact;
pub mod intents;
pub mod interest;
pub mod island;
pub mod landcover;
pub mod layered_law;
pub mod layers;
pub mod ledger;
pub mod local_front;
pub mod map;
pub mod map_check;
pub mod movement;
pub mod movement_law;
pub mod noise;
pub mod order;
pub mod outline;
pub mod parts;
pub mod patch;
pub mod patch_law;
pub mod pathfinding;
pub mod perimeter;
pub mod pipeline;
pub mod placement;
pub mod play_law;
pub mod projection;
pub mod redistribution;
pub mod registry;
pub mod relief;
pub mod retask;
pub mod retask_law;
pub mod ring;
pub mod session;
pub mod shape;
pub mod share_law;
pub mod spawning;
pub mod start_law;
pub mod step_law;
pub mod streams;
pub mod table;
pub mod tactical;
pub mod text;
pub mod transfer;
pub mod transfer_law;
pub mod waterfill;
pub mod view_law;
pub mod water_law;
pub mod world_check;
pub mod world_law;
pub mod world_pass;
pub mod worldgen;
