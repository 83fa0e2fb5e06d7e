use wordle::algos::naive::Naive;
use wordle::{play, play_with_limit, Correctness, Guess, Guesser, PlayError, Turn, WordError, MAX_ROUNDS};

/// Offers the same word every round and notes how long the history was at each call.
struct Repeat {
    word: String,
    seen: Vec<usize>,
}

impl Repeat {
    fn new(word: &str) -> Self {
        Repeat { word: word.to_string(), seen: Vec::new() }
    }
}

impl Guesser for Repeat {
    fn guess(&mut self, history: &[Guess]) -> Option<String> {
        self.seen.push(history.len());
        Some(self.word.clone())
    }
}

/// Offers the words given, in order, then nothing.
struct Script {
    words: Vec<&'static str>,
    next: usize,
}

impl Guesser for Script {
    fn guess(&mut self, _history: &[Guess]) -> Option<String> {
        let w = self.words.get(self.next).map(|w| w.to_string());
        self.next += 1;
        w
    }
}

#[test]
fn right_answer_first_wins_in_round_one() {
    let mut g = Repeat::new("hello");
    assert_eq!(play("hello", &mut g), Ok(Some(1)));
    assert_eq!(g.seen, vec![0]);
}

#[test]
fn never_right_plays_every_round() {
    let mut g = Repeat::new("world");
    assert_eq!(play("hello", &mut g), Ok(None));
    assert_eq!(g.seen.len(), MAX_ROUNDS);
    assert_eq!(g.seen, (0..MAX_ROUNDS).collect::<Vec<usize>>());
}

#[test]
fn round_limit_is_configurable() {
    let mut g = Repeat::new("world");
    assert_eq!(play_with_limit("hello", &mut g, 6), Ok(None));
    assert_eq!(g.seen, vec![0, 1, 2, 3, 4, 5]);

    let mut g = Repeat::new("world");
    assert_eq!(play_with_limit("hello", &mut g, 0), Ok(None));
    assert!(g.seen.is_empty());
}

#[test]
fn win_is_reported_in_its_round() {
    let mut g = Script { words: vec!["world", "helps", "hello"], next: 0 };
    assert_eq!(play("hello", &mut g), Ok(Some(3)));
}

#[test]
fn win_after_the_limit_is_not_counted() {
    let mut g = Script { words: vec!["world", "helps", "hello"], next: 0 };
    assert_eq!(play_with_limit("hello", &mut g, 2), Ok(None));
}

#[test]
fn strategy_without_a_word_fails_the_game() {
    let mut g = Script { words: vec!["world"], next: 0 };
    assert_eq!(play("hello", &mut g), Err(PlayError::StrategyFailure));

    let mut naive = Naive::new();
    assert_eq!(play("hello", &mut naive), Err(PlayError::StrategyFailure));
}

#[test]
fn unscorable_guess_fails_the_game() {
    let mut g = Script { words: vec!["world", "toolong"], next: 0 };
    assert_eq!(play("hello", &mut g), Err(PlayError::InvalidWord(WordError::InvalidLength)));

    let mut g = Script { words: vec!["WORLD"], next: 0 };
    assert_eq!(play("hello", &mut g), Err(PlayError::InvalidWord(WordError::InvalidLetter)));
}

#[test]
fn round_records_scored_guesses() {
    let mut history: Vec<Guess> = Vec::new();
    assert_eq!(play_round_scored(&mut history, "world"), Turn::Scored);
    assert_eq!(play_round_scored(&mut history, "llama"), Turn::Scored);
    assert_eq!(history.len(), 2);
    assert_eq!(history[0].word(), "world");
    assert_eq!(
        history[0].mask(),
        [Correctness::Wrong, Correctness::Misplaced, Correctness::Wrong, Correctness::Correct, Correctness::Wrong]
    );
    assert_eq!(history[1].word(), "llama");
    assert_eq!(
        history[1].mask(),
        [Correctness::Misplaced, Correctness::Misplaced, Correctness::Wrong, Correctness::Wrong, Correctness::Wrong]
    );
}

fn play_round_scored(history: &mut Vec<Guess>, word: &str) -> Turn {
    let round = history.len() + 1;
    wordle::game::play_round("hello", round, Some(word.to_string()), history)
}

#[test]
fn round_with_the_answer_wins_and_records_nothing() {
    let mut history: Vec<Guess> = Vec::new();
    assert_eq!(wordle::game::play_round("hello", 4, Some("hello".to_string()), &mut history), Turn::Won(4));
    assert!(history.is_empty());
}

#[test]
fn round_without_a_word_fails() {
    let mut history: Vec<Guess> = Vec::new();
    assert_eq!(
        wordle::game::play_round("hello", 1, None, &mut history),
        Turn::Failed(PlayError::StrategyFailure)
    );
    assert!(history.is_empty());
}
