//! Apeiron Cipher core logic: procedural naming, mod validation and
//! ordering, asset-file validation, persistence framing and decay,
//! observation confidence, the material catalog and journal navigation.

pub mod naming;
pub mod order;
pub mod text;
pub mod mod_manifest;
pub mod mod_validator;
pub mod world_generation;
pub mod persistence;
pub mod observation;
pub mod journal;
pub mod mod_asset_validator;
pub mod mod_registry;
pub mod materials;
pub mod matchmaking;
pub mod knowledge_graph;
