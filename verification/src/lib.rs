//! The rules of a dice game in the style of Yacht: the scoring categories,
//! the turn cycle of the players and the decisions of its menus.

pub mod dice;
pub mod game;
pub mod scoring;
pub mod menu;
