//! Rules, state and solver of a water sort puzzle, with their contracts.
pub mod bits;
pub mod state;
pub mod reachable;
pub mod history;
pub mod ranges;
pub mod starting;
pub mod rng;
pub mod layout;
pub mod level;
pub mod search;
pub mod view;
pub mod decor;
pub mod input;
pub mod sizes;
pub mod session;
pub mod hud;
pub mod anim;
