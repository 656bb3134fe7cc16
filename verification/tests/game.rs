use game_gateway::events::GameEvent;
use game_gateway::game::{Game, GameError, STATUS_FINISHED, STATUS_LOBBY, STATUS_PLAYING};
use game_gateway::question::Question;
use game_gateway::time::Timestamp;

fn make_game(num_questions: usize) -> Game {
    Game {
        id: "gam-01".into(),
        owner_id: "owner-1".into(),
        quiz_id: "quiz-1".into(),
        status: STATUS_LOBBY.into(),
        questions: (0..num_questions)
            .map(|i| Question {
                answers: Vec::new(),
                available_time: 30,
                correct_answer: 1,
                choices: vec![format!("A{}", i), format!("B{}", i)],
            })
            .collect(),
        current_question: 0,
        started_at: None,
        updated_at: Timestamp { secs: 1_700_000_000, nanos: 0 },
        finished_at: None,
        players: Vec::new(),
        events: Vec::new(),
    }
}

fn player_name<'a>(g: &'a Game, id: &str) -> Option<&'a str> {
    g.players.iter().find(|(k, _)| k == id).map(|(_, p)| p.name.as_str())
}

#[test]
fn join_player_adds_player_and_emits_event() {
    let mut g = make_game(1);
    g.join_player("p1".into(), "Alice".into()).unwrap();

    assert!(player_name(&g, "p1").is_some());
    assert_eq!(player_name(&g, "p1").unwrap(), "Alice");
    assert_eq!(g.events.len(), 1);
    assert!(matches!(&g.events[0], GameEvent::PlayerJoined { player_id, .. } if player_id == "p1"));
}

#[test]
fn join_player_twice_does_not_duplicate() {
    let mut g = make_game(1);
    g.join_player("p1".into(), "Alice".into()).unwrap();
    g.join_player("p1".into(), "Alice".into()).unwrap();

    assert_eq!(g.players.len(), 1);
    // The event is emitted both times.
    assert_eq!(g.events.len(), 2);
}

#[test]
fn start_requires_at_least_one_player() {
    let mut g = make_game(1);
    assert!(g.start().is_err());
}

#[test]
fn start_transitions_to_playing() {
    let mut g = make_game(1);
    g.join_player("p1".into(), "Alice".into()).unwrap();
    g.events.clear();

    g.start().unwrap();

    assert_eq!(g.status, STATUS_PLAYING);
    assert!(g.started_at.is_some());
    assert_eq!(g.events.len(), 1);
    assert!(matches!(&g.events[0], GameEvent::GameStarted { .. }));
}

#[test]
fn start_fails_when_already_started() {
    let mut g = make_game(1);
    g.join_player("p1".into(), "Alice".into()).unwrap();
    g.start().unwrap();
    assert!(g.start().is_err());
}

#[test]
fn next_question_advances_index() {
    let mut g = make_game(3);
    g.join_player("p1".into(), "Alice".into()).unwrap();
    g.start().unwrap();
    g.events.clear();

    g.next_question().unwrap();

    assert_eq!(g.current_question, 1);
    assert_eq!(g.status, STATUS_PLAYING);
    assert!(matches!(&g.events[0], GameEvent::QuestionUpdated { current_question: 1, .. }));
}

#[test]
fn next_question_on_last_finishes_game() {
    let mut g = make_game(2);
    g.join_player("p1".into(), "Alice".into()).unwrap();
    g.start().unwrap();
    g.next_question().unwrap(); // advances to question 1 (last)
    g.events.clear();

    g.next_question().unwrap(); // should finish

    assert_eq!(g.status, STATUS_FINISHED);
    assert!(g.finished_at.is_some());
    assert!(matches!(&g.events[0], GameEvent::GameFinished { .. }));
}

#[test]
fn register_answer_records_in_question() {
    let mut g = make_game(1);
    g.join_player("p1".into(), "Alice".into()).unwrap();
    g.start().unwrap();
    g.events.clear();

    g.register_answer("p1", 1, 5).unwrap();

    let answer = g.questions[0].answers.iter().find(|(k, _)| k == "p1").map(|(_, a)| a);
    assert!(answer.is_some());
    assert_eq!(answer.unwrap().answer_index, 1);
    assert_eq!(answer.unwrap().time_to_answer, 5);
    assert!(matches!(&g.events[0], GameEvent::AnswerRegistered { player_id, .. } if player_id == "p1"));
}

#[test]
fn leaderboard_scores_correct_answers_with_time_bonus() {
    let mut g = make_game(1);
    g.join_player("p1".into(), "Alice".into()).unwrap();
    g.join_player("p2".into(), "Bob".into()).unwrap();
    g.start().unwrap();

    // p1 answers correctly in 5s (bonus = 30-5 = 25, score 125)
    g.register_answer("p1", 1, 5).unwrap();
    // p2 answers incorrectly
    g.register_answer("p2", 0, 3).unwrap();

    let lb = g.leaderboard();
    assert_eq!(lb.gold, "Alice");
    assert_eq!(lb.silver, "Bob");
    assert_eq!(lb.bronze, "");
}

#[test]
fn participants_includes_owner_and_players() {
    let mut g = make_game(1);
    g.join_player("p1".into(), "Alice".into()).unwrap();

    let parts = g.participants();
    assert!(parts.contains(&"owner-1".to_string()));
    assert!(parts.contains(&"p1".to_string()));
    assert_eq!(parts.len(), 2);
}

#[test]
fn start_errors_name_their_reason() {
    let mut g = make_game(1);
    assert_eq!(g.start(), Err(GameError::NoPlayers));
    g.join_player("p1".into(), "Alice".into()).unwrap();
    g.start().unwrap();
    assert_eq!(g.start(), Err(GameError::AlreadyStarted));
}
