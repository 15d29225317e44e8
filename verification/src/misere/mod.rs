//! Misère play

pub mod game_form;
pub mod p_free;
pub mod p_free_dead_ending;
pub mod p_free_enumerate;
