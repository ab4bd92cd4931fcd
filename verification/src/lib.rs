//! Verified combinatorial core of a heads-up preflop solver: cards and
//! private combos, suit-canonical flops, hand classes, exact-kernel
//! validation, chance streams and deterministic digests.

pub mod cards;
pub mod flop;
pub mod batch;
pub mod provenance;
pub mod classes;
pub mod text;
pub mod kernel;
pub mod game;
pub mod digest;
pub mod deals;
pub mod texture;
pub mod keys;
pub mod attribution;
pub mod info;
pub mod order;
pub mod plan;
pub mod configs;
pub mod workplan;
pub mod scenarios;
pub mod checkpoint;
pub mod requests;
pub mod range_cache;
pub mod endpoints;
pub mod continuation_cache;
pub mod policy_artifact;
pub mod networks;
pub mod texture_features;
pub mod quantize;
pub mod orbit_plan;
pub mod resolver_plan;
pub mod compact_policy;
