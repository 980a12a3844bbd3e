//! A bot that plays the perpetual perfect-clear loop.

pub mod bits;
pub mod shapes;
pub mod movegen;
pub mod movebits;
pub mod piece;
pub mod table;
pub mod hidden;
pub mod graph;
pub mod score;
pub mod text;
pub mod bytes;
pub mod values;
pub mod game;
pub mod dag;
pub mod value_search;
pub mod chain;
pub mod analysis;
pub mod proj;
pub mod tbpcoord;
pub mod moves;
pub mod fault;
pub mod choice;
pub mod physical;
pub mod board;
pub mod bot;
pub mod init;
pub mod sim;
pub mod probe;
