//! Simulation core of a grid-based snake game: a deterministic state machine
//! that advances the snake, detects collisions, places food, tracks the score
//! and highscore, and handles directional input. Rendering, audio and the
//! event loop live outside this crate and only read its state and call its
//! mutation API; the highscore store is reached through plain bytes that
//! [`parse_highscore`] reads and [`encode_highscore`] writes.

mod game;
mod highscore;
mod rng;

pub use game::Direction;
pub use game::GameContext;
pub use game::GameState;
pub use game::Point;
pub use game::adjacent;
pub use game::dx;
pub use game::dy;
pub use game::highscore_or_zero;
pub use game::initial_snake;
pub use game::lemma_turn_no_reversal;
pub use game::opposite;
pub use highscore::all_digits;
pub use highscore::dec_digits;
pub use highscore::digits_val;
pub use highscore::encode_highscore;
pub use highscore::is_ascii_digit;
pub use highscore::is_ascii_ws;
pub use highscore::lemma_highscore_round_trip;
pub use highscore::parse_highscore;
pub use highscore::parse_spec;
pub use highscore::trim_back;
pub use highscore::trim_front;
pub use highscore::trimmed;
