use chrono::{Timelike, Utc};
use game_gateway::codec::{decode_game, encode_game};
use game_gateway::game::Game;
use game_gateway::question::Question;
use game_gateway::time::Timestamp;

fn stamp(t: chrono::DateTime<Utc>) -> Timestamp {
    Timestamp { secs: t.timestamp(), nanos: t.timestamp_subsec_nanos() }
}

#[test]
fn roundtrip_game() {
    let now = Utc::now().with_nanosecond(123_456_789).unwrap();
    let game = Game {
        id: "abc-def".into(),
        owner_id: "user-1".into(),
        quiz_id: "quiz-1".into(),
        status: "lobby".into(),
        questions: vec![Question {
            answers: Vec::new(),
            available_time: 30,
            correct_answer: 1,
            choices: vec!["A".into(), "B".into(), "C".into()],
        }],
        current_question: 0,
        started_at: None,
        updated_at: stamp(now),
        finished_at: None,
        players: Vec::new(),
        events: Vec::new(),
    };

    let encoded = encode_game(&game).expect("encode failed");
    let decoded = decode_game(&encoded).expect("decode failed");

    assert_eq!(decoded.id, game.id);
    assert_eq!(decoded.owner_id, game.owner_id);
    assert_eq!(decoded.status, game.status);
    assert_eq!(decoded.current_question, game.current_question);
    assert_eq!(decoded.questions.len(), 1);
    assert_eq!(decoded.questions[0].available_time, 30);
    assert_eq!(decoded.questions[0].correct_answer, 1);
    assert_eq!(decoded.questions[0].choices, vec!["A", "B", "C"]);
    assert_eq!(decoded.updated_at.secs, now.timestamp());
    assert_eq!(decoded.updated_at.nanos, now.timestamp_subsec_nanos());
}

#[test]
fn time_nil_roundtrip() {
    let now = Utc::now();
    let game = Game {
        id: "x".into(),
        owner_id: "o".into(),
        quiz_id: "q".into(),
        status: "lobby".into(),
        questions: Vec::new(),
        current_question: 0,
        started_at: Some(stamp(now)),
        updated_at: stamp(now),
        finished_at: None,
        players: Vec::new(),
        events: Vec::new(),
    };

    let encoded = encode_game(&game).unwrap();
    let decoded = decode_game(&encoded).unwrap();

    assert!(decoded.started_at.is_some());
    assert!(decoded.finished_at.is_none());
    assert_eq!(decoded.started_at.unwrap().secs, now.timestamp());
}

/// Bytes captured from a live store.
#[test]
fn decode_real_go_bytes() {
    let hex = "8aa26964a76571302d323435a86f776e65725f6964ac6c6f316d3562706d676a\
               6b66a77175697a5f6964ac6c736a6635786d7439643968a6737461747573a56c\
               6f626279a97175657374696f6e739384a7616e737765727380ae617661696c61\
               626c655f74696d650fae636f72726563745f616e7377657202a763686f696365\
               7394aa53c3a36f205061756c6fae52696f206465204a616e6569726fa9427261\
               73c3ad6c6961a853616c7661646f7284a7616e737765727380ae617661696c61\
               626c655f74696d650aae636f72726563745f616e7377657200a763686f696365\
               7394a55061726973a44c796f6ea84d617273656c6861a44e69636584a7616e73\
               7765727380ae617661696c61626c655f74696d6514ae636f72726563745f616e\
               7377657202a763686f6963657394a45365756ca650657175696da754c3b37175\
               696fab42616e677565636f717565b063757272656e745f7175657374696f6e00\
               aa737461727465645f6174c0aa757064617465645f6174c70c05000000006a34\
               54e016520ce0ab66696e69736865645f6174c0a7706c6179657273800a";

    let bytes: Vec<u8> = (0..hex.len())
        .step_by(2)
        .map(|i| u8::from_str_radix(&hex[i..i + 2], 16).unwrap())
        .collect();

    let game = decode_game(&bytes).expect("decode of captured bytes failed");

    assert_eq!(game.id, "eq0-245");
    assert_eq!(game.status, "lobby");
    assert_eq!(game.questions.len(), 3);
    assert!(game.started_at.is_none());
    assert!(game.finished_at.is_none());
    assert_eq!(game.players.len(), 0);
    assert_eq!(game.current_question, 0);
    assert!(game.updated_at.secs > 0);
}
