//! A follower-chain motion solver in fixed-point arithmetic.
//!
//! A head moves through the world; the chain records where it has been and,
//! tick by tick, places a row of bodies behind it. Each body trails the head
//! by its own delay and arc length, bodies that overlap are pushed apart,
//! and a jump of the head is followed one body at a time.
//!
//! Every number is a whole count of millionths: of a world unit for
//! lengths and coordinates, of a second for instants. The world is a cube
//! of a million units either way, and a chain can run for a million
//! million seconds and units of path. Inside these limits no operation
//! overflows, and every result is stated exactly, rounding included.
//!
//! A tick of a chain is [`head::SnakeHead::move_head`] followed by
//! `SnakeHead::solve_body`.

pub mod fixed;
pub mod vector;
pub mod records;
pub mod segment;
pub mod body;
pub mod chain;
pub mod head;
pub mod follow;
pub mod relax;
pub mod solve;
pub mod snapshot;
pub mod ground;
pub mod laws;
pub mod rest;
pub mod apart;
pub mod frame;
pub mod line;
