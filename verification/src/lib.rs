//! The core of a backgammon engine daemon: move notation, the level catalog and the
//! engine pool, how engine results become answers, and how requests are worked off.
//!
//! `board`, `notation`, `hops`, `roundtrip`, `laws` and `dice` hold the moves: reading
//! and applying a notation, finding the notation of a move from two boards, and what
//! ties the two together. `levels`, `engine`, `catalog`, `weights`, `pool` and
//! `pool_laws` hold what the engine answers at and what it is made of; `ffi` and
//! `calls` what is handed to and asked of the engine library. `mapping`,
//! `evaluation`, `results` and `server` turn messages into work and what the engine
//! gave into answers, and `args` reads the command line. `text` holds what all of them say about strings.

pub mod args;
pub mod board;
pub mod calls;
pub mod catalog;
pub mod dice;
pub mod engine;
pub mod evaluation;
pub mod ffi;
pub mod hops;
pub mod laws;
pub mod levels;
pub mod mapping;
pub mod notation;
pub mod pool;
pub mod pool_laws;
pub mod results;
pub mod roundtrip;
pub mod server;
pub mod text;
pub mod weights;
