use vstd::prelude::*;

verus! {

/// Number of letters in every answer and every guess.
pub const WORD_LEN: usize = 5;

/// Size of the alphabet that words are written in (`a` to `z`).
pub const ALPHABET: usize = 26;

/// How one letter of a guess fares against the answer.
#[derive(Debug, Clone, Copy, PartialEq, Eq, Structural)]
pub enum Correctness {
    /// The answer holds this letter at this very position.
    Correct,
    /// The answer holds this letter elsewhere, and not every copy of it is used up.
    Misplaced,
    /// No copy of this letter is left in the answer for this position.
    Wrong,
}

/// Why a pair of words cannot be scored.
#[derive(Debug, Clone, Copy, PartialEq, Eq, Structural)]
pub enum WordError {
    /// A word does not have exactly five characters.
    InvalidLength,
    /// A word of five characters holds one that is not a lowercase letter `a`..`z`.
    InvalidLetter,
}

pub open spec fn is_letter(c: char) -> bool {
    'a' <= c && c <= 'z'
}

/// A word that can be scored: five lowercase letters.
pub open spec fn is_word(w: Seq<char>) -> bool {
    &&& w.len() == WORD_LEN
    &&& forall|i: int| 0 <= i < w.len() ==> is_letter(#[trigger] w[i])
}

/// Slot of letter `c` in a table indexed by the alphabet.
pub open spec fn slot(c: char) -> int {
    c as int - 'a' as int
}

/// Positions below `n` where `w` holds `c`.
pub open spec fn occurrences(w: Seq<char>, c: char, n: int) -> nat
    decreases n,
{
    if n <= 0 {
        0
    } else {
        occurrences(w, c, n - 1) + if w[n - 1] == c { 1nat } else { 0nat }
    }
}

/// Positions below `n` where guess and answer agree on the letter `c`.
pub open spec fn exact(answer: Seq<char>, guess: Seq<char>, c: char, n: int) -> nat
    decreases n,
{
    if n <= 0 {
        0
    } else {
        exact(answer, guess, c, n - 1) + if answer[n - 1] == c && guess[n - 1] == c {
            1nat
        } else {
            0nat
        }
    }
}

/// Copies of `c` at positions below `n` of the answer that the guess does not match exactly:
/// the copies left over for misplaced credit.
pub open spec fn unmatched(answer: Seq<char>, guess: Seq<char>, c: char, n: int) -> nat
    decreases n,
{
    if n <= 0 {
        0
    } else {
        unmatched(answer, guess, c, n - 1) + if answer[n - 1] == c && guess[n - 1] != c {
            1nat
        } else {
            0nat
        }
    }
}

/// Copies of `c` at positions below `n` of the guess that do not match the answer exactly:
/// the copies that compete, left to right, for the leftover ones.
pub open spec fn stray(answer: Seq<char>, guess: Seq<char>, c: char, n: int) -> nat
    decreases n,
{
    if n <= 0 {
        0
    } else {
        stray(answer, guess, c, n - 1) + if guess[n - 1] == c && answer[n - 1] != c {
            1nat
        } else {
            0nat
        }
    }
}

/// The outcome at position `i`: an exact match is correct; otherwise the letter is misplaced
/// when fewer of its earlier stray copies came before it than there are leftover copies in
/// the answer, so that earlier positions win the limited credit.
pub open spec fn outcome_at(answer: Seq<char>, guess: Seq<char>, i: int) -> Correctness {
    if guess[i] == answer[i] {
        Correctness::Correct
    } else if stray(answer, guess, guess[i], i) < unmatched(
        answer,
        guess,
        guess[i],
        WORD_LEN as int,
    ) {
        Correctness::Misplaced
    } else {
        Correctness::Wrong
    }
}

/// The result mask of `guess` against `answer`.
pub open spec fn score(answer: Seq<char>, guess: Seq<char>) -> Seq<Correctness> {
    Seq::new(WORD_LEN as nat, |i: int| outcome_at(answer, guess, i))
}

/// Entries below `n` of `mask` that are `o`.
pub open spec fn tally(mask: Seq<Correctness>, o: Correctness, n: int) -> nat
    decreases n,
{
    if n <= 0 {
        0
    } else {
        tally(mask, o, n - 1) + if mask[n - 1] == o { 1nat } else { 0nat }
    }
}

/// Positions below `n` where guess and answer hold the same letter.
pub open spec fn agreements(answer: Seq<char>, guess: Seq<char>, n: int) -> nat
    decreases n,
{
    if n <= 0 {
        0
    } else {
        agreements(answer, guess, n - 1) + if answer[n - 1] == guess[n - 1] { 1nat } else { 0nat }
    }
}

/// Positions below `n` where the guess holds `c` and `mask` gives it credit
/// (`Correct` or `Misplaced`).
pub open spec fn credited(guess: Seq<char>, mask: Seq<Correctness>, c: char, n: int) -> nat
    decreases n,
{
    if n <= 0 {
        0
    } else {
        credited(guess, mask, c, n - 1) + if guess[n - 1] == c && mask[n - 1]
            != Correctness::Wrong {
            1nat
        } else {
            0nat
        }
    }
}

proof fn lemma_tally_correct(answer: Seq<char>, guess: Seq<char>, n: int)
    requires
        is_word(answer),
        is_word(guess),
        0 <= n <= WORD_LEN,
    ensures
        tally(score(answer, guess), Correctness::Correct, n) == agreements(answer, guess, n),
    decreases n,
{
    if n > 0 {
        lemma_tally_correct(answer, guess, n - 1);
    }
}

/// The number of `Correct` outcomes equals the number of positions where the two words
/// hold the same letter.
pub proof fn lemma_correct_count(answer: Seq<char>, guess: Seq<char>)
    requires
        is_word(answer),
        is_word(guess),
    ensures
        tally(score(answer, guess), Correctness::Correct, WORD_LEN as int) == agreements(
            answer,
            guess,
            WORD_LEN as int,
        ),
{
    lemma_tally_correct(answer, guess, WORD_LEN as int);
}

proof fn lemma_credited_prefix(answer: Seq<char>, guess: Seq<char>, c: char, n: int)
    requires
        is_word(answer),
        is_word(guess),
        0 <= n <= WORD_LEN,
    ensures
        credited(guess, score(answer, guess), c, n) == exact(answer, guess, c, n) + if stray(
            answer,
            guess,
            c,
            n,
        ) < unmatched(answer, guess, c, WORD_LEN as int) {
            stray(answer, guess, c, n)
        } else {
            unmatched(answer, guess, c, WORD_LEN as int)
        },
    decreases n,
{
    if n > 0 {
        lemma_credited_prefix(answer, guess, c, n - 1);
    }
}

/// For every letter, its `Correct` and `Misplaced` outcomes together never outnumber its
/// copies in the answer.
pub proof fn lemma_credit_bounded(answer: Seq<char>, guess: Seq<char>, c: char)
    requires
        is_word(answer),
        is_word(guess),
    ensures
        credited(guess, score(answer, guess), c, WORD_LEN as int) <= occurrences(
            answer,
            c,
            WORD_LEN as int,
        ),
{
    lemma_credited_prefix(answer, guess, c, WORD_LEN as int);
    lemma_occurrences_split(answer, guess, c, WORD_LEN as int);
}

/// The characters of `s`, in order.
fn letters(s: &str) -> (r: Vec<char>)
    ensures
        r@ == s@,
{
    let mut r: Vec<char> = Vec::new();
    for c in it: s.chars()
        invariant
            r@ == it.seq().take(it.index() as int),
            it.seq() == s@,
    {
        r.push(c);
    }
    r
}

/// Whether every character of `w` is a lowercase letter.
fn all_letters(w: &Vec<char>) -> (r: bool)
    ensures
        r == forall|i: int| 0 <= i < w@.len() ==> is_letter(#[trigger] w@[i]),
{
    let mut i: usize = 0;
    while i < w.len()
        invariant
            i <= w@.len(),
            forall|j: int| 0 <= j < i ==> is_letter(#[trigger] w@[j]),
        decreases w@.len() - i,
    {
        if !('a' <= w[i] && w[i] <= 'z') {
            return false;
        }
        i += 1;
    }
    true
}

proof fn lemma_occurrences_split(answer: Seq<char>, guess: Seq<char>, c: char, n: int)
    requires
        0 <= n <= answer.len(),
        n <= guess.len(),
    ensures
        occurrences(answer, c, n) == exact(answer, guess, c, n) + unmatched(answer, guess, c, n),
    decreases n,
{
    if n > 0 {
        lemma_occurrences_split(answer, guess, c, n - 1);
    }
}

proof fn lemma_occurrences_bound(w: Seq<char>, c: char, n: int)
    requires
        0 <= n <= w.len(),
    ensures
        occurrences(w, c, n) <= n,
    decreases n,
{
    if n > 0 {
        lemma_occurrences_bound(w, c, n - 1);
    }
}

proof fn lemma_occurrences_grow(w: Seq<char>, c: char, n: int, m: int)
    requires
        0 <= n <= m <= w.len(),
    ensures
        occurrences(w, c, n) <= occurrences(w, c, m),
    decreases m - n,
{
    if n < m {
        lemma_occurrences_grow(w, c, n, m - 1);
    }
}

impl Correctness {
    /// Scores `guess` against `answer`, letter by letter.
    ///
    /// Exact matches are settled first and use up their copy of the letter; then, left to
    /// right, each other letter is misplaced while the answer still has an unused copy of it,
    /// and wrong once none is left.
    pub fn compute(answer: &str, guess: &str) -> (r: Result<[Correctness; 5], WordError>)
        ensures
            answer@.len() != WORD_LEN || guess@.len() != WORD_LEN ==> r == Err::<
                [Correctness; 5],
                WordError,
            >(WordError::InvalidLength),
            answer@.len() == WORD_LEN && guess@.len() == WORD_LEN && !(is_word(answer@) && is_word(
                guess@,
            )) ==> r == Err::<[Correctness; 5], WordError>(WordError::InvalidLetter),
            is_word(answer@) && is_word(guess@) ==> (r matches Ok(m) && m@ == score(answer@, guess@)),
    {
        let a = letters(answer);
        let g = letters(guess);
        if a.len() != WORD_LEN || g.len() != WORD_LEN {
            return Err(WordError::InvalidLength);
        }
        if !all_letters(&a) || !all_letters(&g) {
            return Err(WordError::InvalidLetter);
        }
        let ghost av = a@;
        let ghost gv = g@;

        let mut counts: [u8; ALPHABET] = [0u8; ALPHABET];
        for i in 0..WORD_LEN
            invariant
                a@ == av,
                is_word(av),
                forall|c: char|
                    is_letter(c) ==> #[trigger] counts@[slot(c)] == occurrences(av, c, i as int),
        {
            let k = (a[i] as u32 - 'a' as u32) as usize;
            proof {
                lemma_occurrences_bound(av, av[i as int], i as int);
                assert(counts@[slot(av[i as int])] <= i);
                assert forall|c: char| is_letter(c) implies #[trigger] counts@[slot(c)]
                    + (if av[i as int] == c { 1int } else { 0int }) == occurrences(
                    av,
                    c,
                    i + 1,
                ) by {}
            }
            counts[k] = counts[k] + 1;
            proof {
                assert forall|c: char| is_letter(c) implies #[trigger] counts@[slot(c)]
                    == occurrences(av, c, i + 1) by {
                    if av[i as int] != c {
                        assert(slot(c) != k);
                    }
                }
            }
        }
        let mut mask: [Correctness; 5] = [Correctness::Wrong; 5];
        for i in 0..WORD_LEN
            invariant
                a@ == av,
                g@ == gv,
                is_word(av),
                is_word(gv),
                forall|c: char|
                    is_letter(c) ==> #[trigger] counts@[slot(c)] == occurrences(av, c, WORD_LEN as int)
                        - exact(av, gv, c, i as int),
                forall|j: int|
                    0 <= j < WORD_LEN ==> #[trigger] mask@[j] == if j < i && gv[j] == av[j] {
                        Correctness::Correct
                    } else {
                        Correctness::Wrong
                    },
        {
            if g[i] == a[i] {
                let k = (g[i] as u32 - 'a' as u32) as usize;
                proof {
                    let c = gv[i as int];
                    lemma_occurrences_split(av, gv, c, i + 1);
                    lemma_occurrences_grow(av, c, i + 1, WORD_LEN as int);
                    assert(counts@[slot(c)] >= 1);
                }
                counts[k] = counts[k] - 1;
                mask[i] = Correctness::Correct;
                proof {
                    assert forall|c: char| is_letter(c) implies #[trigger] counts@[slot(c)]
                        == occurrences(av, c, WORD_LEN as int) - exact(av, gv, c, i + 1) by {
                        if gv[i as int] != c {
                            assert(slot(c) != k);
                        }
                    }
                }
            }
        }
        proof {
            assert forall|c: char| is_letter(c) implies #[trigger] counts@[slot(c)] == unmatched(
                av,
                gv,
                c,
                WORD_LEN as int,
            ) by {
                lemma_occurrences_split(av, gv, c, WORD_LEN as int);
            }
        }

        for i in 0..WORD_LEN
            invariant
                a@ == av,
                g@ == gv,
                is_word(av),
                is_word(gv),
                forall|c: char|
                    is_letter(c) ==> #[trigger] counts@[slot(c)] == if stray(av, gv, c, i as int)
                        < unmatched(av, gv, c, WORD_LEN as int) {
                        unmatched(av, gv, c, WORD_LEN as int) - stray(av, gv, c, i as int)
                    } else {
                        0
                    },
                forall|j: int|
                    0 <= j < WORD_LEN ==> #[trigger] mask@[j] == if j < i {
                        outcome_at(av, gv, j)
                    } else if gv[j] == av[j] {
                        Correctness::Correct
                    } else {
                        Correctness::Wrong
                    },
        {
            if mask[i] != Correctness::Correct {
                let k = (g[i] as u32 - 'a' as u32) as usize;
                proof {
                    let c = gv[i as int];
                    assert(k == slot(c));
                    assert(counts@[slot(c)] > 0 <==> stray(av, gv, c, i as int) < unmatched(
                        av,
                        gv,
                        c,
                        WORD_LEN as int,
                    ));
                }
                if counts[k] > 0 {
                    mask[i] = Correctness::Misplaced;
                    counts[k] = counts[k] - 1;
                }
                proof {
                    assert forall|c: char| is_letter(c) implies #[trigger] counts@[slot(c)] == if stray(
                        av,
                        gv,
                        c,
                        i + 1,
                    ) < unmatched(av, gv, c, WORD_LEN as int) {
                        unmatched(av, gv, c, WORD_LEN as int) - stray(av, gv, c, i + 1)
                    } else {
                        0
                    } by {
                        if gv[i as int] != c {
                            assert(slot(c) != k);
                        }
                    }
                }
            }
            assert(mask@[i as int] == outcome_at(av, gv, i as int));
        }
        proof {
            assert(mask@ =~= score(av, gv));
        }
        Ok(mask)
    }
}

} // verus!
