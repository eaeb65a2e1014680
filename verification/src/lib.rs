//! Part trees for a vehicular combat game.
//!
//! A vehicle is a tree of parts: a chassis carries legs, heads and weapons on
//! its hardpoints, and each of those may carry further parts. This crate keeps
//! the forest of all such trees in an arena, attaches and detaches branches,
//! sums up the statistics of each tree, decides which bodies may collide, fires
//! weapons and applies damage, and assembles random enemies.
//!
//! All quantities are integers. Lengths, speeds and angles are expressed in a
//! fixed unit chosen by the embedding program, so that sums are exact and do not
//! depend on the order in which parts are visited.

pub mod aggregate;
pub mod animation;
pub mod catalog;
pub mod collision;
pub mod commands;
pub mod director;
pub mod effects;
pub mod forest;
pub mod laws;
pub mod parts;
pub mod projectiles;
pub mod random;
pub mod stats;
pub mod utils;
pub mod weapons;
pub mod world;
