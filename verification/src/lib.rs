//! A rules engine for the board game Hive: a hexagonal grid in cube
//! coordinates, stacked pieces, per-species move generation, and the
//! one-hive connectivity rule checked against a simulated move.

pub mod square;
pub mod board;
pub mod connect;
pub mod movers;
pub mod moves;
