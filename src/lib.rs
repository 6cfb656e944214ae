//! A grid snake game: a logical pixel surface and the game state machine
//! that moves the snake, grows it and places food.

pub mod color;
pub mod vec2;
pub mod canvas;
pub mod game;
