//! Rules engine and search-based move advisor for a two-player wall game on a
//! rectangular grid.
pub mod board;
pub mod city;
pub mod game;
pub mod geometry;
pub mod moves;
pub mod reach;
pub mod search;
