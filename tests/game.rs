use mutsolver_core::{
    attempt::Attempt,
    state::State,
    Answer::{No, Unknown, Yes},
    Answers, Dict, Error, Game, Guess, Options, Test, TestSuite,
};

fn fixture_dict() -> Dict {
    Dict::new(
        vec![
            "ABOUTI".to_string(),
            "ABONDE".to_string(),
            "ASORTI".to_string(),
            "ABSOLU".to_string(),
        ],
        vec![],
    )
    .unwrap()
}

fn fixture_testsuite() -> TestSuite {
    vec![
        Test::At('B', 1),
        Test::HasPrefix("AB".to_string()),
        Test::HasSuffix("TI".to_string()),
        Test::At('D', 4),
        Test::HasAtLeast('L', 1),
    ]
}

#[test]
fn test_valid_game() {
    let dict = fixture_dict();
    let mut game = Game::new(&dict, &Options::default());
    assert_eq!(game.attempts().len(), 0);

    let answer = "ASORTI";

    game.add(Attempt::from_answer("ABOUTI", answer).unwrap());
    assert_eq!(game.attempts().len(), 1);
}

#[test]
fn test_known_answers() {
    let dict = fixture_dict();
    let tests = fixture_testsuite();

    let mut game = Game::new_with_tests(&dict, tests);

    assert_eq!(
        game.known_answers().unwrap(),
        Answers(vec![Unknown, Unknown, Unknown, Unknown, Unknown])
    );

    game.add(Attempt::from_answer("ABOUTI", "ABONDE").unwrap());

    assert_eq!(
        game.known_answers().unwrap(),
        Answers(vec![Yes, Yes, No, Unknown, Unknown])
    );

    game.add(Attempt::from_answer("ABSOLU", "ABONDE").unwrap());

    assert_eq!(
        game.known_answers().unwrap(),
        Answers(vec![Yes, Yes, No, Unknown, No])
    );

    game.add(Attempt::from_answer("ABONDE", "ABONDE").unwrap());

    assert_eq!(
        game.known_answers().unwrap(),
        Answers(vec![Yes, Yes, No, Yes, No])
    );
}

#[test]
fn contradicting_attempts_are_reported() {
    let dict = fixture_dict();
    let mut game = Game::new_with_tests(&dict, fixture_testsuite());
    game.add(Attempt("ABOUTI", vec![State::Yes; 6]));
    game.add(Attempt("ABOUTI", vec![State::No; 6]));
    assert!(matches!(
        game.known_answers(),
        Err(Error::IncompatibleAnswers(Yes, No))
    ));
    assert!(matches!(
        game.guess_next(),
        Err(Error::IncompatibleAnswers(Yes, No))
    ));
}

#[test]
fn test_out_of_word_is_reported() {
    let dict = fixture_dict();
    let mut game = Game::new_with_tests(&dict, vec![Test::At('A', 7)]);
    assert_eq!(game.known_answers().unwrap(), Answers(vec![Unknown]));
    game.add(Attempt::from_answer("ABOUTI", "ABONDE").unwrap());
    assert!(matches!(
        game.known_answers(),
        Err(Error::UnexpectedTest(Test::At('A', 7), _))
    ));
}

#[test]
fn guess_without_compatible_word() {
    let dict = fixture_dict();
    let mut game = Game::new_with_tests(&dict, fixture_testsuite());
    game.add(Attempt::from_answer("ABOUTI", "ZZZZZZ").unwrap());
    assert_eq!(game.guess_next().unwrap(), Guess::NoSolution);
}

#[test]
fn guess_with_one_compatible_word() {
    let dict = fixture_dict();
    let mut game = Game::new_with_tests(&dict, fixture_testsuite());
    game.add(Attempt::from_answer("ABOUTI", "ABONDE").unwrap());
    game.add(Attempt::from_answer("ABSOLU", "ABONDE").unwrap());
    assert_eq!(
        game.guess_next().unwrap(),
        Guess::Solution("ABONDE".to_string())
    );
}

#[test]
fn guess_with_several_compatible_words() {
    let dict = fixture_dict();
    let mut game = Game::new_with_tests(&dict, fixture_testsuite());
    // All four answers still fit: the last answer word is the candidate.
    assert_eq!(
        game.guess_next().unwrap(),
        Guess::Candidate("ABSOLU".to_string())
    );
    game.add(Attempt::from_answer("ABOUTI", "ABONDE").unwrap());
    assert_eq!(
        game.guess_next().unwrap(),
        Guess::Candidate("ABSOLU".to_string())
    );
}

#[test]
fn allowed_word_never_outscores_candidate() {
    let dict = Dict::new(
        vec!["ABOUTI".to_string(), "ABONDE".to_string()],
        vec!["ASORTI".to_string(), "ABSOLU".to_string()],
    )
    .unwrap();
    let game = Game::new_with_tests(&dict, fixture_testsuite());
    assert_eq!(
        game.guess_next().unwrap(),
        Guess::Candidate("ABONDE".to_string())
    );
}

#[test]
fn game_keeps_its_dictionary() {
    let dict = fixture_dict();
    let game = Game::new_with_tests(&dict, fixture_testsuite());
    assert_eq!(game.dict().len(), 4);
    assert_eq!(game.dict().word_size(), 6);
}
