use vstd::prelude::*;

use crate::game::{Guess, Guesser};

verus! {

/// A placeholder strategy that has no word list yet: it never offers a word, so a game
/// played with it stops in its first round with a strategy failure.
#[derive(Clone, Copy)]
pub struct Naive;

impl Naive {
    pub fn new() -> Naive {
        Naive
    }
}

impl Guesser for Naive {
    fn guess(&mut self, _history: &[Guess]) -> Option<String> {
        None
    }
}

} // verus!
