//! Game engine for the Left-Right-Center dice game: players hold chips, each
//! turn the active player rolls one die per chip (at most three), and each die
//! either keeps the chip, passes it to a neighbour, or retires it to a neutral
//! center pool. The last player holding chips wins.

pub mod dice;
pub mod engine;
