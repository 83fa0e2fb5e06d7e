use vstd::prelude::*;

use crate::score::{is_word, score, Correctness, WordError, WORD_LEN};

verus! {

/// Rounds that `play` allows: well beyond the six of the real game, so that slow strategies
/// can still be measured.
pub const MAX_ROUNDS: usize = 31;

/// A scored guess, as a word and its mask.
pub type Record = (Seq<char>, Seq<Correctness>);

/// One scored round: the word that was guessed and how each of its letters fared.
pub struct Guess {
    word: String,
    mask: [Correctness; 5],
}

impl View for Guess {
    type V = Record;

    closed spec fn view(&self) -> Record {
        (self.word@, self.mask@)
    }
}

impl Guess {
    /// The word that was guessed.
    pub fn word(&self) -> (r: &str)
        ensures
            r@ == self@.0,
    {
        self.word.as_str()
    }

    /// How each letter of the word fared.
    pub fn mask(&self) -> (r: [Correctness; 5])
        ensures
            r@ == self@.1,
    {
        self.mask
    }
}

/// A strategy: proposes the next word from the rounds played so far in the current game.
pub trait Guesser {
    /// The next word to try, given every scored round of this game in order (empty on the
    /// first call); `None` when the strategy has no word to offer.
    fn guess(&mut self, history: &[Guess]) -> Option<String>;
}

/// Why a game stopped before it was won or played out.
#[derive(Debug, Clone, Copy, PartialEq, Eq, Structural)]
pub enum PlayError {
    /// The strategy had no word to offer.
    StrategyFailure,
    /// A guess that differs from the answer could not be scored against it.
    InvalidWord(WordError),
}

/// What a round came to.
#[derive(Debug, Clone, Copy, PartialEq, Eq, Structural)]
pub enum Turn {
    /// The guess was the answer, in the round given.
    Won(usize),
    /// The guess was scored and recorded; the game goes on.
    Scored,
    /// The game stops with this error.
    Failed(PlayError),
}

/// The views of a sequence of scored rounds.
pub open spec fn records(h: Seq<Guess>) -> Seq<Record> {
    h.map_values(|g: Guess| g@)
}

/// The characters of an offered word, if one was offered.
pub open spec fn offered(guess: Option<String>) -> Option<Seq<char>> {
    match guess {
        Some(w) => Some(w@),
        None => None,
    }
}

/// Why `answer` and `word` cannot be scored against each other, when they cannot.
pub open spec fn word_error(answer: Seq<char>, word: Seq<char>) -> WordError {
    if answer.len() != WORD_LEN || word.len() != WORD_LEN {
        WordError::InvalidLength
    } else {
        WordError::InvalidLetter
    }
}

/// Round `round` of a game on `answer`, with `guess` offered after `history`: what it comes
/// to, and the history after it.
pub open spec fn step(answer: Seq<char>, round: usize, guess: Option<Seq<char>>, history: Seq<Record>) -> (Turn, Seq<Record>) {
    match guess {
        None => (Turn::Failed(PlayError::StrategyFailure), history),
        Some(w) => if w == answer {
            (Turn::Won(round), history)
        } else if is_word(answer) && is_word(w) {
            (Turn::Scored, history.push((w, score(answer, w))))
        } else {
            (Turn::Failed(PlayError::InvalidWord(word_error(answer, w))), history)
        },
    }
}

/// A game on `answer` in which the strategy offered `guesses` in order, one per round from
/// round one: how the last round came out and the history then. Once a round wins or fails,
/// later guesses change nothing.
pub open spec fn drive(answer: Seq<char>, guesses: Seq<Option<Seq<char>>>) -> (Turn, Seq<Record>)
    decreases guesses.len(),
{
    if guesses.len() == 0 {
        (Turn::Scored, Seq::empty())
    } else {
        let prev = drive(answer, guesses.drop_last());
        if prev.0 == Turn::Scored {
            step(answer, guesses.len() as usize, guesses.last(), prev.1)
        } else {
            prev
        }
    }
}

/// What `play` returns for a game that went as `drive` says.
pub open spec fn outcome(answer: Seq<char>, guesses: Seq<Option<Seq<char>>>) -> Result<Option<usize>, PlayError> {
    match drive(answer, guesses).0 {
        Turn::Won(n) => Ok(Some(n)),
        Turn::Scored => Ok(None),
        Turn::Failed(e) => Err(e),
    }
}

/// A strategy whose first word is the answer wins in round one, and no round is ever
/// scored: whatever it would offer later, the game ends there with an empty history.
pub proof fn lemma_first_guess_wins(answer: Seq<char>, guesses: Seq<Option<Seq<char>>>)
    requires
        guesses.len() >= 1,
        guesses[0] == Some(answer),
    ensures
        drive(answer, guesses) == (Turn::Won(1), Seq::<Record>::empty()),
        outcome(answer, guesses) == Ok::<Option<usize>, PlayError>(Some(1)),
    decreases guesses.len(),
{
    if guesses.len() > 1 {
        assert(guesses.drop_last()[0] == guesses[0]);
        lemma_first_guess_wins(answer, guesses.drop_last());
    } else {
        assert(guesses.drop_last() =~= Seq::<Option<Seq<char>>>::empty());
        assert(guesses.last() == guesses[0]);
        assert(drive(answer, guesses.drop_last()) == (Turn::Scored, Seq::<Record>::empty()));
    }
}

/// A strategy that offers, in every round, a word that can be scored and is not the answer
/// plays every round without a result: the history then holds one record per round, each
/// the offered word with its score.
pub proof fn lemma_misses_exhaust(answer: Seq<char>, guesses: Seq<Option<Seq<char>>>)
    requires
        is_word(answer),
        forall|i: int|
            0 <= i < guesses.len() ==> (#[trigger] guesses[i] matches Some(w) && is_word(w) && w
                != answer),
    ensures
        drive(answer, guesses).0 == Turn::Scored,
        drive(answer, guesses).1.len() == guesses.len(),
        forall|i: int|
            0 <= i < guesses.len() ==> #[trigger] drive(answer, guesses).1[i] == (
                guesses[i]->0,
                score(answer, guesses[i]->0),
            ),
        outcome(answer, guesses) == Ok::<Option<usize>, PlayError>(None),
    decreases guesses.len(),
{
    if guesses.len() > 0 {
        let prev = guesses.drop_last();
        assert forall|i: int| 0 <= i < prev.len() implies (#[trigger] prev[i] matches Some(w)
            && is_word(w) && w != answer) by {
            assert(prev[i] == guesses[i]);
        }
        lemma_misses_exhaust(answer, prev);
        assert forall|i: int| 0 <= i < guesses.len() implies #[trigger] drive(answer, guesses).1[i]
            == (guesses[i]->0, score(answer, guesses[i]->0)) by {
            if i < prev.len() {
                assert(prev[i] == guesses[i]);
                assert(drive(answer, prev).1[i] == (prev[i]->0, score(answer, prev[i]->0)));
            }
        }
    }
}

/// Plays round `round` with the strategy's `guess`: a guess equal to the answer wins; any
/// other is scored and appended to `history`, unless it is missing or cannot be scored.
pub fn play_round(answer: &str, round: usize, guess: Option<String>, history: &mut Vec<Guess>) -> (r: Turn)
    ensures
        (r, records(final(history)@)) == step(answer@, round, offered(guess), records(old(history)@)),
{
    let word = match guess {
        None => return Turn::Failed(PlayError::StrategyFailure),
        Some(w) => w,
    };
    let target = answer.to_owned();
    if word == target {
        return Turn::Won(round);
    }
    match Correctness::compute(answer, word.as_str()) {
        Err(e) => Turn::Failed(PlayError::InvalidWord(e)),
        Ok(mask) => {
            let ghost before = history@;
            history.push(Guess { word, mask });
            proof {
                assert(records(history@) =~= records(before).push(history@.last()@));
            }
            Turn::Scored
        },
    }
}

/// Plays one game on `answer` with `guesser`, for at most `max_rounds` rounds: the round in
/// which the guess equals the answer, or `None` when no round up to the limit does.
///
/// Whatever the strategy offers, the result is that of `drive` on the guesses it made, and
/// a game with no result played every round.
pub fn play_with_limit<G: Guesser>(answer: &str, guesser: &mut G, max_rounds: usize) -> (r: Result<Option<usize>, PlayError>)
    ensures
        exists|guesses: Seq<Option<Seq<char>>>|
            #![trigger outcome(answer@, guesses)]
            guesses.len() <= max_rounds && r == outcome(answer@, guesses) && (drive(
                answer@,
                guesses,
            ).0 == Turn::Scored ==> guesses.len() == max_rounds),
        r matches Ok(Some(n)) ==> 1 <= n <= max_rounds,
{
    let mut history: Vec<Guess> = Vec::new();
    let ghost mut guesses: Seq<Option<Seq<char>>> = Seq::empty();
    let mut played: usize = 0;
    while played < max_rounds
        invariant
            played <= max_rounds,
            guesses.len() == played,
            drive(answer@, guesses) == (Turn::Scored, records(history@)),
            history@.len() == played,
        decreases max_rounds - played,
    {
        let guess = guesser.guess(history.as_slice());
        let ghost word = offered(guess);
        let ghost before = guesses;
        let ghost before_history = history@;
        let turn = play_round(answer, played + 1, guess, &mut history);
        proof {
            guesses = guesses.push(word);
            assert(guesses.drop_last() =~= before);
            assert(drive(answer@, guesses) == (turn, records(history@)));
        }
        match turn {
            Turn::Won(n) => {
                assert(outcome(answer@, guesses) == Ok::<Option<usize>, PlayError>(Some(n)));
                return Ok(Some(n));
            },
            Turn::Failed(e) => {
                assert(outcome(answer@, guesses) == Err::<Option<usize>, PlayError>(e));
                return Err(e);
            },
            Turn::Scored => {
                assert(records(history@).len() == records(before_history).len() + 1);
            },
        }
        played = played + 1;
    }
    assert(outcome(answer@, guesses) == Ok::<Option<usize>, PlayError>(None));
    Ok(None)
}

/// Plays one game on `answer` with `guesser`, for at most `MAX_ROUNDS` rounds.
pub fn play<G: Guesser>(answer: &str, guesser: &mut G) -> (r: Result<Option<usize>, PlayError>)
    ensures
        exists|guesses: Seq<Option<Seq<char>>>|
            #![trigger outcome(answer@, guesses)]
            guesses.len() <= MAX_ROUNDS && r == outcome(answer@, guesses) && (drive(
                answer@,
                guesses,
            ).0 == Turn::Scored ==> guesses.len() == MAX_ROUNDS),
        r matches Ok(Some(n)) ==> 1 <= n <= MAX_ROUNDS,
{
    play_with_limit(answer, guesser, MAX_ROUNDS)
}

} // verus!
