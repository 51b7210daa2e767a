//! One player's game: the answer, the guesses made so far, and whether the
//! game is won.

use vstd::prelude::*;
use crate::scoring::{all_correct, copy_of, is_win, lengths_agree, score, scored, uppercase};
use crate::scoring::{Entry, Guess, GuessError};
use crate::stats::StatsEvent;

verus! {

/// The most guesses a game takes.
pub const MAX_GUESSES: usize = 6;

/// What an accepted guess led to.
#[derive(Debug)]
pub enum GuessResult {
    /// The guess did not win and was the last one allowed.
    MaxGuess(Guess),
    /// The guess did not win; the game goes on.
    Guess(Guess),
    /// The guess won; the number is that of the guess, counted from one.
    Won(Guess, u8),
}

/// The game of one player.
pub struct Game {
    /// The word to be found.
    pub answer: String,
    /// The scored guesses made so far, oldest first.
    pub guesses: Vec<Guess>,
    /// Whether one of the guesses was the answer.
    pub win: bool,
}

/// A game as plain values: the answer, the scored guesses made so far,
/// oldest first, and whether the game is won.
pub struct GameView {
    pub answer: Seq<char>,
    pub history: Seq<Seq<Entry>>,
    pub win: bool,
}

impl GameView {
    /// A game that has just begun.
    pub open spec fn fresh(word: Seq<char>) -> GameView {
        GameView { answer: word, history: Seq::empty(), win: false }
    }

    /// The game after a restart with the answer `word`.
    pub open spec fn restarted(self, word: Seq<char>) -> GameView {
        GameView::fresh(word)
    }

    /// What holds of every game that began fresh and took guesses since: it
    /// has at most six guesses, and it is won exactly if one of them has
    /// every letter `Correct`.
    pub open spec fn wf(self) -> bool {
        &&& self.history.len() <= MAX_GUESSES
        &&& self.win <==> exists|k: int|
            0 <= k < self.history.len() && all_correct(#[trigger] self.history[k])
    }

    /// The error that turns the guess `input` away, if any: a won game
    /// takes no guess, nor does one with six guesses, nor is a guess taken
    /// whose length is not that of the answer.
    pub open spec fn refusal(self, input: Seq<char>) -> Option<GuessError> {
        if self.win {
            Some(GuessError::GameOver)
        } else if self.history.len() >= MAX_GUESSES {
            Some(GuessError::GuessLimitReached)
        } else if !lengths_agree(self.answer, input) {
            Some(GuessError::LengthError)
        } else {
            None
        }
    }

    /// The guess `input` scored against the answer, without regard to case.
    pub open spec fn scored_guess(self, input: Seq<char>) -> Seq<Entry> {
        scored(uppercase(self.answer), uppercase(input))
    }

    /// The game after the guess `input` was taken.
    pub open spec fn after_guess(self, input: Seq<char>) -> GameView {
        GameView {
            answer: self.answer,
            history: self.history.push(self.scored_guess(input)),
            win: all_correct(self.scored_guess(input)),
        }
    }

    /// The game after each of `inputs` was submitted in turn; one that is
    /// turned away changes nothing.
    pub open spec fn after_guesses(self, inputs: Seq<Seq<char>>) -> GameView
        decreases inputs.len(),
    {
        if inputs.len() == 0 {
            self
        } else {
            let before = self.after_guesses(inputs.drop_last());
            if before.refusal(inputs.last()) is None {
                before.after_guess(inputs.last())
            } else {
                before
            }
        }
    }
}

impl View for Game {
    type V = GameView;

    open spec fn view(&self) -> GameView {
        GameView {
            answer: self.answer@,
            history: Seq::new(self.guesses@.len(), |k: int| self.guesses@[k]@),
            win: self.win,
        }
    }
}

impl GuessResult {
    /// Whether `self` is what a guess scored as `entries` leads to when
    /// `made` guesses were made before it.
    pub open spec fn reports(self, entries: Seq<Entry>, made: nat) -> bool {
        match self {
            GuessResult::Won(shown, attempt) => {
                shown@ == entries && all_correct(entries) && attempt == made + 1
            },
            GuessResult::MaxGuess(shown) => {
                shown@ == entries && !all_correct(entries) && made + 1 == MAX_GUESSES
            },
            GuessResult::Guess(shown) => {
                shown@ == entries && !all_correct(entries) && made + 1 != MAX_GUESSES
            },
        }
    }

    /// What the statistics are to record after this result: a win with the
    /// number of its guess, a loss when the last guess failed, nothing
    /// while the game goes on.
    pub fn stats_event(&self) -> (event: Option<StatsEvent>)
        ensures
            event == match *self {
                GuessResult::Won(_, attempt) => Some(StatsEvent::Win(attempt as usize)),
                GuessResult::MaxGuess(_) => Some(StatsEvent::Loss),
                GuessResult::Guess(_) => None,
            },
    {
        match self {
            GuessResult::Won(_, attempt) => Some(StatsEvent::Win(*attempt as usize)),
            GuessResult::MaxGuess(_) => Some(StatsEvent::Loss),
            GuessResult::Guess(_) => None,
        }
    }
}

impl Game {
    /// A game that has just begun, with the answer `word`.
    pub fn new(word: &str) -> (game: Self)
        ensures
            game@ == GameView::fresh(word@),
            game@.wf(),
    {
        let game = Game { answer: word.to_owned(), guesses: Vec::new(), win: false };
        proof {
            assert(game@.history =~= Seq::<Seq<Entry>>::empty());
        }
        game
    }

    /// Starts over with a new answer, whatever the state of the game.
    pub fn restart(&mut self, word: &String)
        ensures
            final(self)@ == old(self)@.restarted(word@),
            final(self)@.wf(),
    {
        self.answer = word.clone();
        self.guesses.clear();
        self.win = false;
        proof {
            assert(self@.history =~= Seq::<Seq<Entry>>::empty());
        }
    }

    /// Takes one guess.
    ///
    /// A guess that is turned away leaves the game as it was. One that is
    /// taken is scored against the answer without regard to case and added
    /// to the history; the game is won if every letter of it is `Correct`.
    pub fn submit_guess(&mut self, input: &String) -> (r: Result<GuessResult, GuessError>)
        ensures
            old(self)@.wf() ==> final(self)@.wf(),
            match r {
                Err(e) => old(self)@.refusal(input@) == Some(e) && *final(self) == *old(self),
                Ok(result) => {
                    &&& old(self)@.refusal(input@) is None
                    &&& final(self)@ == old(self)@.after_guess(input@)
                    &&& result.reports(old(self)@.scored_guess(input@), old(self)@.history.len())
                },
            },
    {
        if self.win {
            return Err(GuessError::GameOver);
        }
        if self.guesses.len() >= MAX_GUESSES {
            return Err(GuessError::GuessLimitReached);
        }
        let matches = match score(self.answer.as_str(), input.as_str()) {
            Ok(matches) => matches,
            Err(e) => {
                return Err(e);
            },
        };
        let won: bool = is_win(&matches);
        self.guesses.push(copy_of(&matches));
        self.win = won;
        proof {
            let made = old(self)@.history.len() as int;
            assert(self@.history =~= old(self)@.history.push(matches@));
            if old(self)@.wf() {
                if won {
                    assert(all_correct(self@.history[made]));
                } else {
                    assert forall|k: int| 0 <= k < self@.history.len() implies !all_correct(
                        #[trigger] self@.history[k],
                    ) by {
                        if k < made {
                            assert(self@.history[k] == old(self)@.history[k]);
                        }
                    }
                }
            }
        }
        if won {
            let attempt: u8 = self.guesses.len() as u8;
            Ok(GuessResult::Won(matches, attempt))
        } else if self.guesses.len() == MAX_GUESSES {
            Ok(GuessResult::MaxGuess(matches))
        } else {
            Ok(GuessResult::Guess(matches))
        }
    }

    /// Takes one guess after the dictionary was asked for it: a word that
    /// the dictionary does not hold is turned away before anything else is
    /// looked at, and the game stays as it was.
    pub fn submit_word(&mut self, in_dictionary: bool, input: &String) -> (r: Result<
        GuessResult,
        GuessError,
    >)
        ensures
            old(self)@.wf() ==> final(self)@.wf(),
            match r {
                Err(e) => *final(self) == *old(self) && if in_dictionary {
                    old(self)@.refusal(input@) == Some(e)
                } else {
                    e == GuessError::NonexistentWordError
                },
                Ok(result) => {
                    &&& in_dictionary
                    &&& old(self)@.refusal(input@) is None
                    &&& final(self)@ == old(self)@.after_guess(input@)
                    &&& result.reports(old(self)@.scored_guess(input@), old(self)@.history.len())
                },
            },
    {
        if !in_dictionary {
            return Err(GuessError::NonexistentWordError);
        }
        self.submit_guess(input)
    }
}

/// Restarting twice leaves the game as restarting once does: begun afresh
/// with the answer given last, whatever went before.
pub proof fn lemma_restart_idempotent(game: GameView, first: Seq<char>, second: Seq<char>)
    ensures
        game.restarted(first).restarted(second) == game.restarted(second),
        game.restarted(second).restarted(second) == game.restarted(second),
        game.restarted(second).history.len() == 0,
        !game.restarted(second).win,
{
}

/// A game that was won takes no further guess: whatever is submitted next
/// is turned away with `GameOver`, and the history stays as it is.
pub proof fn lemma_won_game_is_over(game: GameView, winning: Seq<char>, next: Seq<Seq<char>>)
    requires
        game.refusal(winning) is None,
        all_correct(game.scored_guess(winning)),
    ensures
        forall|input: Seq<char>| #[trigger]
            game.after_guess(winning).refusal(input) == Some(GuessError::GameOver),
        game.after_guess(winning).after_guesses(next) == game.after_guess(winning),
    decreases next.len(),
{
    if next.len() > 0 {
        lemma_won_game_is_over(game, winning, next.drop_last());
    }
}

/// The game after `inputs`, none of which is turned away or wins, has one
/// guess in its history for each of them and is not won.
pub proof fn lemma_misses_fill_history(game: GameView, inputs: Seq<Seq<char>>)
    requires
        !game.win,
        forall|k: int|
            0 <= k < inputs.len() ==> {
                let before = game.after_guesses(#[trigger] inputs.take(k));
                before.refusal(inputs[k]) is None && !all_correct(before.scored_guess(inputs[k]))
            },
    ensures
        game.after_guesses(inputs).history.len() == game.history.len() + inputs.len(),
        !game.after_guesses(inputs).win,
        game.after_guesses(inputs).answer == game.answer,
    decreases inputs.len(),
{
    if inputs.len() > 0 {
        let shorter = inputs.drop_last();
        assert forall|k: int| 0 <= k < shorter.len() implies {
            let before = game.after_guesses(#[trigger] shorter.take(k));
            before.refusal(shorter[k]) is None && !all_correct(before.scored_guess(shorter[k]))
        } by {
            assert(shorter.take(k) =~= inputs.take(k));
        }
        lemma_misses_fill_history(game, shorter);
        assert(inputs.take(inputs.len() - 1) =~= shorter);
    }
}

/// After six guesses that did not win, a fresh game takes no further
/// guess: the seventh is turned away with `GuessLimitReached`, unscored,
/// and the history stays as it is.
pub proof fn lemma_six_misses_exhaust(word: Seq<char>, inputs: Seq<Seq<char>>, seventh: Seq<char>)
    requires
        inputs.len() == MAX_GUESSES,
        forall|k: int|
            0 <= k < inputs.len() ==> {
                let before = GameView::fresh(word).after_guesses(#[trigger] inputs.take(k));
                before.refusal(inputs[k]) is None && !all_correct(before.scored_guess(inputs[k]))
            },
    ensures
        GameView::fresh(word).after_guesses(inputs).refusal(seventh) == Some(
            GuessError::GuessLimitReached,
        ),
        GameView::fresh(word).after_guesses(inputs.push(seventh)) == GameView::fresh(
            word,
        ).after_guesses(inputs),
{
    lemma_misses_fill_history(GameView::fresh(word), inputs);
    assert(inputs.push(seventh).drop_last() =~= inputs);
}

} // verus!
