//! An incremental edit engine for a street map.
//!
//! A map ([`map::StreetMap`]) is a graph of roads and intersections, held in
//! arenas and linked by small identifiers. The engine applies, takes back and
//! replays edits to it (lane layouts, intersection control, crossings,
//! transit schedules) and keeps what is derived from them consistent: turns
//! and movements, stop signs and signals, the shapes of intersections, the
//! driveways of buildings and parking lots, and the zones of restricted roads.
//!
//! - [`edits`] holds the snapshots and commands, the log of commands
//!   ([`edits::log::MapEdits`]) and the transaction that replaces the edits of
//!   a map ([`map::StreetMap::apply_edits`]). What holds of them in general is
//!   proved in [`edits::laws`] and [`edits::compress_law`].
//! - [`services`] names what the engine asks of its surroundings: all
//!   geometry and the search for paths. Nothing is assumed of the answers.
//! - [`connectivity`] finds the lanes from which no trip can be completed.
//! - [`block`], [`adjacency`], [`trace`] and [`shape`] work with the
//!   perimeters of city blocks.
//!
//! Every function here is verified against its contract, with two exceptions
//! whose contracts are taken on trust: the digest in [`checksum`] is computed
//! by the `md5` crate, and the strongly connected components in
//! [`connectivity`] by the `petgraph` crate.

pub mod adjacency;
pub mod block;
pub mod soundness;
pub mod checksum;
pub mod connectivity;
pub mod control;
pub mod edits;
pub mod geometry;
pub mod id_set;
pub mod ids;
pub mod intersection;
pub mod lane;
pub mod map;
pub mod objects;
pub mod policy;
pub mod road;
pub mod services;
pub mod shape;
pub mod text;
pub mod trace;
pub mod tutorial;
pub mod turn;
pub mod units;
pub mod vecs;
pub mod zone;
