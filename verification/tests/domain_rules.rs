use game_gateway::actor::process_command;
use game_gateway::commands::Command;
use game_gateway::events::{GameEvent, PayloadValue};
use game_gateway::game::{Game, GameError, STATUS_FINISHED, STATUS_LOBBY, STATUS_PLAYING};
use game_gateway::player::Player;
use game_gateway::question::{Answer, Question};
use game_gateway::time::Timestamp;

fn question() -> Question {
    Question { answers: Vec::new(), available_time: 30, correct_answer: 1, choices: vec!["A".into(), "B".into()] }
}

fn game(n: usize) -> Game {
    Game {
        id: "g".into(),
        owner_id: "owner".into(),
        quiz_id: "q".into(),
        status: STATUS_LOBBY.into(),
        questions: (0..n).map(|_| question()).collect(),
        current_question: 0,
        started_at: None,
        updated_at: Timestamp { secs: 1, nanos: 0 },
        finished_at: None,
        players: Vec::new(),
        events: Vec::new(),
    }
}

fn t(secs: i64) -> Timestamp {
    Timestamp { secs, nanos: 0 }
}

#[test]
fn joining_again_keeps_the_first_name_and_announces_both() {
    let mut g = game(1);
    g.join_player_at("p1".into(), "Alice".into(), t(10));
    g.join_player_at("p1".into(), "Bob".into(), t(11));
    assert_eq!(g.players.len(), 1);
    assert_eq!(g.players[0].1.name, "Alice");
    assert_eq!(g.events.len(), 2);
    assert!(matches!(&g.events[1], GameEvent::PlayerJoined { player_name, audience, .. }
        if player_name == "Bob" && audience == &vec!["owner".to_string(), "p1".to_string()]));
    assert_eq!(g.updated_at, t(11));
}

#[test]
fn start_at_records_both_instants() {
    let mut g = game(1);
    g.join_player_at("p1".into(), "Alice".into(), t(1));
    assert_eq!(g.start_at(t(5), t(6)), Ok(()));
    assert_eq!(g.started_at, Some(t(5)));
    assert_eq!(g.updated_at, t(6));
    assert!(matches!(&g.events[1], GameEvent::GameStarted { audience, .. }
        if audience == &vec!["owner".to_string(), "p1".to_string()]));
}

#[test]
fn refused_start_leaves_the_game_unchanged() {
    let mut g = game(1);
    assert_eq!(g.start_at(t(5), t(6)), Err(GameError::NoPlayers));
    assert_eq!(g.status, STATUS_LOBBY);
    assert!(g.events.is_empty());
    assert_eq!(g.updated_at, t(1));
}

#[test]
fn a_second_answer_replaces_the_first() {
    let mut g = game(1);
    g.register_answer_at("p1", 0, 9, t(2));
    g.register_answer_at("p1", 1, 4, t(3));
    let answers = &g.questions[0].answers;
    assert_eq!(answers.len(), 1);
    assert_eq!(answers[0].0, "p1");
    assert_eq!(answers[0].1.answer_index, 1);
    assert_eq!(answers[0].1.time_to_answer, 4);
    assert_eq!(g.events.len(), 2);
    assert!(matches!(&g.events[1], GameEvent::AnswerRegistered { audience, .. } if audience == &vec!["owner".to_string()]));
}

#[test]
fn an_answer_without_a_current_question_is_only_announced() {
    let mut g = game(1);
    g.current_question = 3;
    g.register_answer_at("p1", 1, 4, t(3));
    assert!(g.questions[0].answers.is_empty());
    assert_eq!(g.events.len(), 1);
    g.current_question = -1;
    g.register_answer_at("p1", 1, 4, t(3));
    assert!(g.questions[0].answers.is_empty());
}

#[test]
fn finishing_carries_the_leaderboard() {
    let mut g = game(1);
    g.join_player_at("p1".into(), "Alice".into(), t(1));
    g.start_at(t(2), t(2)).unwrap();
    g.register_answer_at("p1", 1, 10, t(3));
    g.next_question_at(t(4), t(5));
    assert_eq!(g.status, STATUS_FINISHED);
    assert_eq!(g.finished_at, Some(t(4)));
    assert_eq!(g.updated_at, t(5));
    assert_eq!(g.current_question, 0);
    match g.events.last().unwrap() {
        GameEvent::GameFinished { leaderboard, audience, .. } => {
            assert_eq!(leaderboard.gold, "Alice");
            assert_eq!(leaderboard.silver, "");
            assert_eq!(audience, &vec!["owner".to_string(), "p1".to_string()]);
        }
        other => panic!("unexpected event {:?}", other),
    }
}

#[test]
fn a_game_without_questions_finishes_past_question_minus_one() {
    let mut g = game(0);
    g.current_question = -1;
    g.next_question_at(t(1), t(1));
    assert_eq!(g.status, STATUS_FINISHED);
    let mut h = game(0);
    h.next_question_at(t(1), t(1));
    assert_eq!(h.current_question, 1);
    assert_eq!(h.status, STATUS_LOBBY);
}

#[test]
fn late_answers_earn_the_base_points_only() {
    let mut g = game(1);
    g.join_player_at("a".into(), "A".into(), t(1));
    g.join_player_at("b".into(), "B".into(), t(1));
    // a: correct but late (40 > 30): 100; b: correct with 29 left: 129.
    g.register_answer_at("a", 1, 40, t(2));
    g.register_answer_at("b", 1, 1, t(2));
    let lb = g.leaderboard();
    assert_eq!(lb.gold, "B");
    assert_eq!(lb.silver, "A");
    assert_eq!(lb.bronze, "");
}

#[test]
fn equal_scores_keep_the_joining_order() {
    let mut g = game(2);
    for (id, name) in [("a", "A"), ("b", "B"), ("c", "C"), ("d", "D")] {
        g.join_player_at(id.into(), name.into(), t(1));
    }
    g.register_answer_at("d", 1, 10, t(2));
    g.register_answer_at("b", 0, 10, t(2));
    let lb = g.leaderboard();
    assert_eq!(lb.gold, "D");
    assert_eq!(lb.silver, "A");
    assert_eq!(lb.bronze, "B");
}

#[test]
fn scores_add_up_over_questions() {
    let mut g = game(2);
    g.join_player_at("a".into(), "A".into(), t(1));
    g.join_player_at("b".into(), "B".into(), t(1));
    g.register_answer_at("a", 1, 25, t(2)); // 105
    g.register_answer_at("b", 1, 20, t(2)); // 110
    g.current_question = 1;
    g.register_answer_at("a", 1, 20, t(2)); // 110, total 215
    let lb = g.leaderboard();
    assert_eq!(lb.gold, "A");
    assert_eq!(lb.silver, "B");
}

#[test]
fn players_sharing_an_id_count_once_with_the_later_name() {
    let mut g = game(1);
    g.players.push(("k1".into(), Player::new("x".into(), "First".into())));
    g.players.push(("k2".into(), Player::new("x".into(), "Second".into())));
    let lb = g.leaderboard();
    assert_eq!(lb.gold, "Second");
    assert_eq!(lb.silver, "");
}

#[test]
fn leaderboard_of_an_empty_game_is_blank() {
    let g = game(1);
    let lb = g.leaderboard();
    assert_eq!((lb.gold.as_str(), lb.silver.as_str(), lb.bronze.as_str()), ("", "", ""));
}

#[test]
fn take_events_hands_them_over_once() {
    let mut g = game(1);
    g.join_player_at("p".into(), "P".into(), t(1));
    let evs = g.take_events();
    assert_eq!(evs.len(), 1);
    assert!(g.events.is_empty());
    assert!(g.take_events().is_empty());
}

#[test]
fn overflowing_moves_are_detected() {
    let mut g = game(3);
    g.current_question = i64::MAX;
    assert!(!g.can_move_on());
    g.current_question = 0;
    assert!(g.can_move_on());
    let mut h = game(1);
    h.players.push(("p".into(), Player::new("p".into(), "P".into())));
    h.questions[0].available_time = i64::MAX;
    h.questions[0].answers.push(("p".into(), Answer { player_id: "p".into(), answer_index: 1, time_to_answer: -1 }));
    assert!(!h.can_move_on());
    assert!(!h.fits_command(&Command::NextQuestion { game_id: "g".into() }));
    assert!(h.fits_command(&Command::StartGame { game_id: "g".into() }));
}

#[test]
fn commands_apply_in_order() {
    let mut g = game(2);
    let join = Command::JoinPlayer { game_id: "g".into(), player_id: "p".into(), player_name: "P".into() };
    assert_eq!(g.apply_command_at(&join, t(1), t(2)), Ok(()));
    let start = Command::StartGame { game_id: "g".into() };
    assert_eq!(g.apply_command_at(&start, t(3), t(4)), Ok(()));
    assert_eq!(g.status, STATUS_PLAYING);
    assert_eq!(g.apply_command_at(&start, t(5), t(6)), Err(GameError::AlreadyStarted));
    let answer = Command::RegisterAnswer { game_id: "g".into(), player_id: "p".into(), answer_index: 1, time_took: 3 };
    assert_eq!(g.apply_command(&answer), Ok(()));
    let next = Command::NextQuestion { game_id: "g".into() };
    assert_eq!(g.apply_command(&next), Ok(()));
    assert_eq!(g.current_question, 1);
    assert_eq!(join.game_id(), "g");
}

#[test]
fn the_actor_saves_broadcasts_and_stops_as_the_game_goes() {
    let mut g = game(1);
    let join = Command::JoinPlayer { game_id: "g".into(), player_id: "p".into(), player_name: "P".into() };
    let o = process_command(&mut g, &join);
    assert!(o.rejected.is_none() && !o.persist && !o.finished);
    assert_eq!(o.events.len(), 1);
    assert!(g.events.is_empty());

    let start = Command::StartGame { game_id: "g".into() };
    let o = process_command(&mut g, &start);
    assert!(o.persist && !o.finished);
    let o = process_command(&mut g, &start);
    assert_eq!(o.rejected, Some(GameError::AlreadyStarted));
    assert!(!o.persist && o.events.is_empty());

    let next = Command::NextQuestion { game_id: "g".into() };
    let o = process_command(&mut g, &next);
    assert!(o.persist && o.finished);
    assert!(matches!(o.events[0], GameEvent::GameFinished { .. }));
}

#[test]
fn events_describe_themselves() {
    let ev = GameEvent::QuestionUpdated { game_id: "g".into(), current_question: 2, audience: vec!["o".into()] };
    assert_eq!(ev.event_type(), "QuestionUpdated");
    assert_eq!(ev.audience(), &["o".to_string()]);
    let p = ev.payload();
    assert_eq!(p.len(), 3);
    assert_eq!(p[0].0, "game_id");
    assert!(matches!(&p[0].1, PayloadValue::Text(t) if t == "g"));
    assert_eq!(p[1].0, "current_question");
    assert!(matches!(p[1].1, PayloadValue::Number(2)));
    assert_eq!(p[2].0, "type");
    assert!(matches!(&p[2].1, PayloadValue::Text(t) if t == "QuestionUpdated"));

    let joined = GameEvent::PlayerJoined {
        game_id: "g".into(),
        player_id: "p".into(),
        player_name: "P".into(),
        audience: vec![],
    };
    assert_eq!(joined.event_type(), "PlayerJoined");
    let keys: Vec<String> = joined.payload().into_iter().map(|(k, _)| k).collect();
    assert_eq!(keys, vec!["game_id", "player_id", "player_name", "type"]);
    assert_eq!(GameEvent::GameStarted { game_id: "g".into(), audience: vec![] }.event_type(), "GameStarted");
    assert_eq!(
        GameEvent::AnswerRegistered { game_id: "g".into(), player_id: "p".into(), audience: vec![] }.event_type(),
        "AnswerRegistered"
    );
}
