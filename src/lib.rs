//! A race-and-capture board game played with four binary sticks, and a
//! search engine that estimates the side to move's chance of winning.

pub mod position;
pub mod sticks;
pub mod game;
pub mod evaluate;
