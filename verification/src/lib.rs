//! Feathered: the engine-side rules of a voxel-game renderer, with contracts.
//!
//! The crate turns resource packs into compiled block data, lights and meshes
//! a block world, and validates and translates resource and shader packs.
//! Files, windows, GPUs and real-number arithmetic live in the program around
//! it; numbers that come from there travel as binary32 bit patterns
//! ([`scalar::F32`]).

pub mod ascii;
pub mod atlas;
pub mod bits;
pub mod blockstates;
pub mod cache;
pub mod chunk;
pub mod cli;
pub mod compiled;
pub mod compiler;
pub mod effects;
pub mod error;
pub mod grid;
pub mod hash;
pub mod json;
pub mod library;
pub mod light;
pub mod managers;
pub mod meta;
pub mod models;
pub mod models_raw;
pub mod naming;
pub mod order;
pub mod pack;
pub mod paths;
pub mod properties;
pub mod registry;
pub mod render;
pub mod resource;
pub mod scalar;
pub mod scene;
pub mod settings;
pub mod shader;
pub mod sprites;
pub mod text;
pub mod texture;
pub mod tint;
pub mod translate;
pub mod validate;
