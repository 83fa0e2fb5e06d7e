pub mod algos;
pub mod game;
pub mod score;

pub use game::{play, play_with_limit, Guess, Guesser, PlayError, Turn, MAX_ROUNDS};
pub use score::{Correctness, WordError};
