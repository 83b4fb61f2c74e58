//! Decodes a log of cube games, one game per line such as
//! `Game 1: 3 blue, 4 red; 1 red, 2 green`, and reduces it to two answers:
//! the sum of the identifiers of the games possible under given cube
//! limits, and the sum over all games of the power of the fewest cubes that
//! could have shown each game's rounds.
pub mod feasibility;
pub mod game;
pub mod laws;
pub mod power;
pub mod round;
pub mod text;
