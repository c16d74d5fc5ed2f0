//! A Conway's Game of Life board engine: a finite rectangular grid of
//! boolean cells with a movable editing cursor, one-generation stepping
//! over the Moore neighborhood, and a compact text format for saving and
//! loading sparse board state.

pub mod game;
pub mod laws;
pub mod serial;
pub mod text;
