use wordle_game::game::{Game, GuessResult};
use wordle_game::scoring::{EntryType, GuessError};
use wordle_game::stats::StatsEvent;

fn guess(game: &mut Game, word: &str) -> Result<GuessResult, GuessError> {
    game.submit_guess(&word.to_string())
}

#[test]
fn new_game_is_empty_and_not_won() {
    let game = Game::new("CRANE");
    assert_eq!(game.answer, "CRANE");
    assert!(game.guesses.is_empty());
    assert!(!game.win);
}

#[test]
fn winning_first_guess_reports_attempt_one() {
    let mut game = Game::new("ABIDE");
    match guess(&mut game, "ABIDE") {
        Ok(GuessResult::Won(entries, attempt)) => {
            assert_eq!(attempt, 1);
            assert_eq!(entries.len(), 5);
            assert!(entries.iter().all(|e| e.e_type == EntryType::Correct));
        }
        other => panic!("unexpected result: {:?}", other),
    }
    assert!(game.win);
    assert_eq!(game.guesses.len(), 1);
}

#[test]
fn win_on_third_guess_reports_attempt_three() {
    let mut game = Game::new("crane");
    assert!(matches!(guess(&mut game, "TRACE"), Ok(GuessResult::Guess(_))));
    assert!(matches!(guess(&mut game, "CRANK"), Ok(GuessResult::Guess(_))));
    match guess(&mut game, "Crane") {
        Ok(GuessResult::Won(_, attempt)) => assert_eq!(attempt, 3),
        other => panic!("unexpected result: {:?}", other),
    }
    assert_eq!(game.guesses.len(), 3);
}

#[test]
fn no_guess_is_taken_after_a_win() {
    let mut game = Game::new("ABIDE");
    assert!(matches!(guess(&mut game, "ABIDE"), Ok(GuessResult::Won(_, 1))));
    let history = game.guesses.clone();
    assert!(matches!(guess(&mut game, "CRANE"), Err(GuessError::GameOver)));
    assert!(matches!(guess(&mut game, "ABIDE"), Err(GuessError::GameOver)));
    assert!(matches!(guess(&mut game, "AB"), Err(GuessError::GameOver)));
    assert_eq!(game.guesses, history);
    assert!(game.win);
}

#[test]
fn seventh_guess_is_turned_away() {
    let mut game = Game::new("ABIDE");
    for _ in 0..5 {
        assert!(matches!(guess(&mut game, "CRANE"), Ok(GuessResult::Guess(_))));
    }
    match guess(&mut game, "TRACE") {
        Ok(GuessResult::MaxGuess(entries)) => assert_eq!(entries.len(), 5),
        other => panic!("unexpected result: {:?}", other),
    }
    assert_eq!(game.guesses.len(), 6);
    assert!(!game.win);
    assert!(matches!(guess(&mut game, "ABIDE"), Err(GuessError::GuessLimitReached)));
    assert!(matches!(guess(&mut game, "AB"), Err(GuessError::GuessLimitReached)));
    assert_eq!(game.guesses.len(), 6);
    assert!(!game.win);
}

#[test]
fn win_on_sixth_guess_is_a_win() {
    let mut game = Game::new("ABIDE");
    for _ in 0..5 {
        assert!(matches!(guess(&mut game, "CRANE"), Ok(GuessResult::Guess(_))));
    }
    assert!(matches!(guess(&mut game, "ABIDE"), Ok(GuessResult::Won(_, 6))));
    assert!(matches!(guess(&mut game, "ABIDE"), Err(GuessError::GameOver)));
}

#[test]
fn wrong_length_leaves_the_game_unchanged() {
    let mut game = Game::new("ABIDE");
    assert!(matches!(guess(&mut game, "ABID"), Err(GuessError::LengthError)));
    assert!(matches!(guess(&mut game, "ABIDES"), Err(GuessError::LengthError)));
    assert!(game.guesses.is_empty());
    assert!(!game.win);
}

#[test]
fn history_keeps_scored_guesses_in_order() {
    let mut game = Game::new("CRANE");
    let first = match guess(&mut game, "TRACE") {
        Ok(GuessResult::Guess(entries)) => entries,
        other => panic!("unexpected result: {:?}", other),
    };
    let second = match guess(&mut game, "CRANK") {
        Ok(GuessResult::Guess(entries)) => entries,
        other => panic!("unexpected result: {:?}", other),
    };
    assert_eq!(game.guesses, vec![first, second]);
    assert_eq!(game.guesses[0][0].letter, 'T');
    assert_eq!(game.guesses[1][4].e_type, EntryType::Wrong);
}

#[test]
fn restart_twice_is_restart_once() {
    let mut once = Game::new("ABIDE");
    assert!(matches!(guess(&mut once, "ABIDE"), Ok(GuessResult::Won(_, 1))));
    once.restart(&"CRANE".to_string());

    let mut twice = Game::new("ABIDE");
    assert!(matches!(guess(&mut twice, "ABIDE"), Ok(GuessResult::Won(_, 1))));
    twice.restart(&"CRANE".to_string());
    twice.restart(&"CRANE".to_string());

    for game in [&once, &twice] {
        assert_eq!(game.answer, "CRANE");
        assert!(game.guesses.is_empty());
        assert!(!game.win);
    }
}

#[test]
fn restart_reopens_an_exhausted_game() {
    let mut game = Game::new("ABIDE");
    for _ in 0..6 {
        guess(&mut game, "CRANE").unwrap();
    }
    assert!(matches!(guess(&mut game, "CRANE"), Err(GuessError::GuessLimitReached)));
    game.restart(&"TRACE".to_string());
    assert!(matches!(guess(&mut game, "TRACE"), Ok(GuessResult::Won(_, 1))));
}

#[test]
fn unknown_word_is_turned_away_first() {
    let mut game = Game::new("ABIDE");
    let word = "ZZZZZ".to_string();
    assert!(matches!(
        game.submit_word(false, &word),
        Err(GuessError::NonexistentWordError)
    ));
    assert!(game.guesses.is_empty());
    assert!(matches!(game.submit_word(true, &word), Ok(GuessResult::Guess(_))));
    assert_eq!(game.guesses.len(), 1);
    assert!(matches!(game.submit_word(true, &"ABIDE".to_string()), Ok(GuessResult::Won(_, 2))));
    assert!(matches!(
        game.submit_word(false, &word),
        Err(GuessError::NonexistentWordError)
    ));
    assert!(matches!(game.submit_word(true, &word), Err(GuessError::GameOver)));
}

#[test]
fn stats_event_follows_the_result() {
    let mut game = Game::new("ABIDE");
    for _ in 0..5 {
        assert_eq!(guess(&mut game, "CRANE").unwrap().stats_event(), None);
    }
    assert_eq!(guess(&mut game, "CRANE").unwrap().stats_event(), Some(StatsEvent::Loss));
    game.restart(&"CRANE".to_string());
    assert_eq!(guess(&mut game, "TRACE").unwrap().stats_event(), None);
    assert_eq!(guess(&mut game, "CRANE").unwrap().stats_event(), Some(StatsEvent::Win(2)));
}
