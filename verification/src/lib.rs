//! A minimal game that generates load for a region, verified.
//!
//! Three peers share this library: the simulation that owns a region and its
//! herd, the edge that relays between regions and clients, and the client that
//! walks a crowd of its own. What they do on a socket or a clock is theirs; what
//! they decide is here, stated and proved.
//!
//! - [`units`] and [`world`] are distances and the world all peers agree on, and
//!   [`common`] what else they share.
//! - [`rng`], [`pattern`], [`region`], [`motion`], [`tick`] and [`sim`] are the herd
//!   of a region. [`conduct`], [`tether`] and [`endurance`] are what it promises,
//!   and [`gait`], [`nursery`] and [`toll`] what that comes to in meters and seconds.
//! - [`ids`], [`link`], [`reports`], [`crowd`] and [`session`] are the client, and
//!   [`upkeep`] is what its crowd promises, of any edge. [`column`] is where that crowd
//!   stands and walks. [`rehearsal`] is what it promises of an edge that refuses
//!   nothing it has not forgotten.
//! - [`edge`] is who is connected to an edge.
//! - [`args`], [`text`] and [`launch`] read command lines. [`histogram`] and
//!   [`ledger`] keep figures.

pub mod args;
pub mod column;
pub mod common;
pub mod conduct;
pub mod crowd;
pub mod edge;
pub mod endurance;
pub mod gait;
pub mod histogram;
pub mod ids;
pub mod launch;
pub mod ledger;
pub mod link;
pub mod motion;
pub mod nursery;
pub mod pattern;
pub mod region;
pub mod rehearsal;
pub mod reports;
pub mod rng;
pub mod session;
pub mod sim;
pub mod tether;
pub mod text;
pub mod tick;
pub mod toll;
pub mod units;
pub mod upkeep;
pub mod world;
