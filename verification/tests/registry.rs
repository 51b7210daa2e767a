use wordle_game::game::GuessResult;
use wordle_game::registry::GameRegistry;
use wordle_game::scoring::GuessError;

#[test]
fn new_registry_holds_no_game() {
    let registry = GameRegistry::new();
    assert!(registry.get("anna").is_none());
    assert_eq!(registry.find("anna"), None);
    assert_eq!(registry.len(), 0);
}

#[test]
fn first_game_of_an_identifier_stays() {
    let mut registry = GameRegistry::new();
    assert!(registry.get_or_create("anna", "CRANE"));
    assert!(!registry.get_or_create("anna", "ABIDE"));
    assert_eq!(registry.get("anna").unwrap().answer, "CRANE");
    assert_eq!(registry.len(), 1);
}

#[test]
fn each_identifier_has_its_own_game() {
    let mut registry = GameRegistry::new();
    assert!(registry.get_or_create("anna", "CRANE"));
    assert!(registry.get_or_create("ben", "ABIDE"));
    let word = "TRACE".to_string();
    assert!(matches!(
        registry.submit("anna", true, &word),
        Some(Ok(GuessResult::Guess(_)))
    ));
    assert_eq!(registry.get("anna").unwrap().guesses.len(), 1);
    assert_eq!(registry.get("ben").unwrap().guesses.len(), 0);
    assert_eq!(registry.get("ben").unwrap().answer, "ABIDE");
    assert_eq!(registry.find("anna"), Some(0));
    assert_eq!(registry.find("ben"), Some(1));
    assert_eq!(registry.find("cleo"), None);
}

#[test]
fn replace_restarts_only_an_existing_game() {
    let mut registry = GameRegistry::new();
    registry.get_or_create("anna", "CRANE");
    registry.get_or_create("ben", "ABIDE");
    let word = "CRANE".to_string();
    assert!(matches!(
        registry.submit("anna", true, &word),
        Some(Ok(GuessResult::Won(_, 1)))
    ));
    assert!(registry.replace("anna", &"TRACE".to_string()));
    let game = registry.get("anna").unwrap();
    assert_eq!(game.answer, "TRACE");
    assert!(game.guesses.is_empty());
    assert!(!game.win);
    assert_eq!(registry.get("ben").unwrap().answer, "ABIDE");
    assert!(!registry.replace("cleo", &"TRACE".to_string()));
    assert!(registry.get("cleo").is_none());
}

#[test]
fn submit_needs_a_game_and_a_known_word() {
    let mut registry = GameRegistry::new();
    let word = "CRANE".to_string();
    assert!(registry.submit("anna", true, &word).is_none());
    registry.get_or_create("anna", "CRANE");
    assert!(matches!(
        registry.submit("anna", false, &word),
        Some(Err(GuessError::NonexistentWordError))
    ));
    assert!(registry.get("anna").unwrap().guesses.is_empty());
    assert!(matches!(
        registry.submit("anna", true, &"CRAN".to_string()),
        Some(Err(GuessError::LengthError))
    ));
    assert!(matches!(
        registry.submit("anna", true, &word),
        Some(Ok(GuessResult::Won(_, 1)))
    ));
    assert!(matches!(
        registry.submit("anna", true, &word),
        Some(Err(GuessError::GameOver))
    ));
}
