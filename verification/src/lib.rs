//! The logic of a store-and-forward mesh relay.
//!
//! A relay is a node of the mesh that is always on and reachable over the internet. It carries
//! sealed bundles for peers that are offline, and takes connections from anybody. This crate
//! decides what it does; sockets, threads, the node itself and its durable store are outside.
//!
//! * Connections: [`front`] tells what a connection wants, [`admission`] whether there is room for
//!   it, [`frame`] and [`ws`] carry link packets over TCP and WebSocket.
//! * The driver: [`driver`] turns events into calls on the node, [`rate`] keeps peers from
//!   starving one another.
//! * The log: [`loghub`] and [`logstream`] show it to visitors, [`lines`] words it, [`health`]
//!   answers probes.
//! * Between regions: [`handoff`] passes bundles on, [`cycles`] tells what that comes to over time,
//!   [`mailbox`] spools and pulls private ones, [`backbone`] dials other relays.
//! * Starting: [`config`] reads the command line, [`identity`] finds out who this relay is.
//! * Beneath: [`table`] is a map with eviction, [`keys`] what it is keyed by, [`base58`] how bytes
//!   are written as text, [`text`] small pieces of text.

pub mod admission;
pub mod backbone;
pub mod base58;
pub mod config;
pub mod cycles;
pub mod driver;
pub mod frame;
pub mod front;
pub mod handoff;
pub mod health;
pub mod identity;
pub mod keys;
pub mod lines;
pub mod loghub;
pub mod logstream;
pub mod mailbox;
pub mod rate;
pub mod table;
pub mod text;
pub mod ws;
