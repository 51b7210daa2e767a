use wordle_game::dictionary::{contains, pick_answer};

fn words(list: &[&str]) -> Vec<String> {
    list.iter().map(|w| w.to_string()).collect()
}

#[test]
fn contains_looks_words_up_in_any_case() {
    let dict = words(&["ABIDE", "CRANE", "TRACE"]);
    assert!(contains(&dict, "CRANE"));
    assert!(contains(&dict, "crane"));
    assert!(contains(&dict, "Trace"));
    assert!(!contains(&dict, "CRAN"));
    assert!(!contains(&dict, "ZZZZZ"));
    assert!(!contains(&dict, ""));
}

#[test]
fn contains_expects_upper_case_words_in_the_dictionary() {
    let dict = words(&["crane"]);
    assert!(!contains(&dict, "crane"));
    assert!(!contains(&dict, "CRANE"));
}

#[test]
fn contains_finds_nothing_in_an_empty_dictionary() {
    assert!(!contains(&Vec::new(), "CRANE"));
}

#[test]
fn picked_answer_is_a_word_of_the_dictionary() {
    let dict = words(&["ABIDE", "CRANE", "TRACE"]);
    for _ in 0..200 {
        let word = pick_answer(&dict);
        assert!(dict.contains(word));
    }
}

#[test]
fn only_word_is_always_picked() {
    let dict = words(&["ABIDE"]);
    for _ in 0..20 {
        assert_eq!(pick_answer(&dict), "ABIDE");
    }
}
