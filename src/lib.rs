//! Card-draw probabilities for deck-based games, computed exactly as ratios
//! of natural numbers, and the net change of a resource over a battle.

pub mod bignat;
pub mod draw_rates;
