use chrono::TimeZone;
use game_gateway::codec::{decode_game, encode_game, CodecError};
use game_gateway::events::GameEvent;
use game_gateway::game::Game;
use game_gateway::msgpack::push_int;
use game_gateway::player::Player;
use game_gateway::question::{Answer, Question};
use game_gateway::time::Timestamp;
use rmpv::Value;

fn bytes_of(v: Value) -> Vec<u8> {
    let mut buf = Vec::new();
    rmpv::encode::write_value(&mut buf, &v).unwrap();
    buf
}

fn map(entries: Vec<(&str, Value)>) -> Value {
    Value::Map(entries.into_iter().map(|(k, v)| (Value::from(k), v)).collect())
}

fn time_ext(secs: i64, nanos: i32) -> Value {
    let mut d = secs.to_be_bytes().to_vec();
    d.extend_from_slice(&nanos.to_be_bytes());
    Value::Ext(5, d)
}

fn err_of(v: Value) -> CodecError {
    decode_game(&bytes_of(v)).err().expect("expected an error")
}

#[test]
fn a_full_game_reads_back() {
    let mut q = Question { answers: Vec::new(), available_time: 20, correct_answer: 2, choices: vec!["x".into()] };
    q.register_answer("p1".into(), 2, 7);
    q.register_answer("p2".into(), -1, i64::MIN);
    let game = Game {
        id: "id-1".into(),
        owner_id: "own".into(),
        quiz_id: "quiz".into(),
        status: "finished".into(),
        questions: vec![q.clone(), Question { answers: Vec::new(), available_time: -5, correct_answer: 0, choices: vec![] }],
        current_question: 1,
        started_at: Some(Timestamp { secs: -86_400, nanos: 999_999_999 }),
        updated_at: Timestamp { secs: 1_700_000_000, nanos: 5 },
        finished_at: Some(Timestamp { secs: 1_700_000_100, nanos: 0 }),
        players: vec![("p1".into(), Player::new("p1".into(), "Ann".into())), ("p2".into(), Player::new("p2".into(), "Bo".into()))],
        events: vec![GameEvent::GameStarted { game_id: "id-1".into(), audience: vec![] }],
    };
    let bytes = encode_game(&game).unwrap();
    let back = decode_game(&bytes).unwrap();
    assert_eq!(back.id, "id-1");
    assert_eq!(back.owner_id, "own");
    assert_eq!(back.quiz_id, "quiz");
    assert_eq!(back.status, "finished");
    assert_eq!(back.current_question, 1);
    assert_eq!(back.started_at, game.started_at);
    assert_eq!(back.updated_at, game.updated_at);
    assert_eq!(back.finished_at, game.finished_at);
    assert_eq!(back.questions.len(), 2);
    assert_eq!(back.questions[0].answers.len(), 2);
    assert_eq!(back.questions[0].answers[1].0, "p2");
    assert_eq!(back.questions[0].answers[1].1.time_to_answer, i64::MIN);
    assert_eq!(back.questions[1].available_time, -5);
    assert_eq!(back.players.len(), 2);
    assert_eq!(back.players[1].1.name, "Bo");
    assert!(back.events.is_empty());
}

#[test]
fn the_stored_form_has_ten_fields_in_order() {
    let game = Game {
        id: "a".into(),
        owner_id: "b".into(),
        quiz_id: "c".into(),
        status: "lobby".into(),
        questions: vec![],
        current_question: 0,
        started_at: None,
        updated_at: Timestamp { secs: 1, nanos: 2 },
        finished_at: None,
        players: vec![],
        events: vec![],
    };
    let bytes = encode_game(&game).unwrap();
    let v = rmpv::decode::read_value(&mut &bytes[..]).unwrap();
    let keys: Vec<String> = v.as_map().unwrap().iter().map(|(k, _)| k.as_str().unwrap().to_string()).collect();
    assert_eq!(
        keys,
        vec!["id", "owner_id", "quiz_id", "status", "questions", "current_question", "started_at", "updated_at", "finished_at", "players"]
    );
    let updated = &v.as_map().unwrap()[7].1;
    assert_eq!(updated, &time_ext(1, 2));
    assert_eq!(&v.as_map().unwrap()[6].1, &Value::Nil);
}

#[test]
fn what_is_not_a_game_is_refused() {
    assert_eq!(decode_game(&[]).err(), Some(CodecError::Msgpack));
    assert_eq!(err_of(Value::from(1)), CodecError::ExpectedGameMap);
    assert_eq!(err_of(map(vec![("id", Value::from(5))])), CodecError::ExpectedString);
    assert_eq!(err_of(map(vec![("current_question", Value::from("x"))])), CodecError::ExpectedInteger);
    assert_eq!(err_of(map(vec![("current_question", Value::from(u64::MAX))])), CodecError::IntegerOutOfRange);
    assert_eq!(err_of(map(vec![("updated_at", Value::Nil)])), CodecError::ExpectedTime);
    assert_eq!(err_of(map(vec![("started_at", Value::from(1))])), CodecError::ExpectedTimeOrNil);
    assert_eq!(err_of(map(vec![("finished_at", Value::Ext(4, vec![0; 12]))])), CodecError::ExpectedTimeOrNil);
    assert_eq!(err_of(map(vec![("updated_at", time_ext(0, -1))])), CodecError::InvalidTimestamp);
    assert_eq!(err_of(map(vec![("updated_at", time_ext(i64::MAX, 0))])), CodecError::InvalidTimestamp);
    assert_eq!(err_of(map(vec![("questions", Value::from(1))])), CodecError::ExpectedQuestionsArray);
    assert_eq!(err_of(map(vec![("questions", Value::Array(vec![Value::from(1)]))])), CodecError::ExpectedQuestionMap);
    assert_eq!(
        err_of(map(vec![("questions", Value::Array(vec![map(vec![("answers", Value::from(1))])]))])),
        CodecError::ExpectedAnswersMap
    );
    assert_eq!(
        err_of(map(vec![("questions", Value::Array(vec![map(vec![("answers", map(vec![("p", Value::from(1))]))])]))])),
        CodecError::ExpectedAnswerMap
    );
    assert_eq!(
        err_of(map(vec![("questions", Value::Array(vec![map(vec![("choices", Value::from(1))])]))])),
        CodecError::ExpectedChoicesArray
    );
    assert_eq!(err_of(map(vec![("players", Value::from(1))])), CodecError::ExpectedPlayersMap);
    assert_eq!(err_of(map(vec![("players", map(vec![("p", Value::from(1))]))])), CodecError::ExpectedPlayerMap);
    let bad_key = Value::Map(vec![(Value::from(1), Value::Nil)]);
    assert_eq!(err_of(map(vec![("players", bad_key)])), CodecError::ExpectedString);
}

#[test]
fn the_first_error_in_field_order_is_reported() {
    let v = map(vec![("players", Value::from(1)), ("id", Value::from(1))]);
    assert_eq!(err_of(v), CodecError::ExpectedPlayersMap);
}

#[test]
fn decoding_is_lenient_about_keys() {
    let v = Value::Map(vec![
        (Value::from(7), Value::from("ignored")),
        (Value::from("unknown"), Value::from(1)),
        (Value::from("id"), Value::from("first")),
        (Value::from("id"), Value::from("second")),
        (Value::from("players"), Value::Map(vec![
            (Value::from("k"), map(vec![("id", Value::from("k")), ("name", Value::from("A"))])),
            (Value::from("k"), map(vec![("id", Value::from("k")), ("name", Value::from("B"))])),
        ])),
    ]);
    let g = decode_game(&bytes_of(v)).unwrap();
    assert_eq!(g.id, "second");
    assert_eq!(g.players.len(), 1);
    assert_eq!(g.players[0].1.name, "B");
    assert_eq!(g.status, "");
    assert!(g.updated_at.secs > 1_600_000_000);
}

#[test]
fn answers_keep_their_own_player_ids() {
    let v = map(vec![(
        "questions",
        Value::Array(vec![map(vec![(
            "answers",
            map(vec![("key", map(vec![("player_id", Value::from("other")), ("answer_index", Value::from(3))]))]),
        )])]),
    )]);
    let g = decode_game(&bytes_of(v)).unwrap();
    let (k, a): &(String, Answer) = &g.questions[0].answers[0];
    assert_eq!(k, "key");
    assert_eq!(a.player_id, "other");
    assert_eq!(a.answer_index, 3);
    assert_eq!(a.time_to_answer, 0);
}

#[test]
fn a_small_game_is_stored_byte_for_byte() {
    let game = Game {
        id: "x".into(),
        owner_id: "o".into(),
        quiz_id: "q".into(),
        status: "lobby".into(),
        questions: vec![],
        current_question: 0,
        started_at: None,
        updated_at: Timestamp { secs: 1, nanos: 2 },
        finished_at: None,
        players: vec![],
        events: vec![],
    };
    let hex = "8aa26964a178a86f776e65725f6964a16fa77175697a5f6964a171a6737461747573a56c6f626279\
               a97175657374696f6e7390b063757272656e745f7175657374696f6e00aa737461727465645f6174c0\
               aa757064617465645f6174c70c05000000000000000100000002ab66696e69736865645f6174c0\
               a7706c6179657273 80";
    let hex: String = hex.chars().filter(|c| !c.is_whitespace()).collect();
    let expected: Vec<u8> = (0..hex.len()).step_by(2).map(|i| u8::from_str_radix(&hex[i..i + 2], 16).unwrap()).collect();
    assert_eq!(encode_game(&game).unwrap(), expected);
}

#[test]
fn chrono_range_and_leap_seconds_are_as_stated() {
    let ok = |s: i64, n: u32| chrono::Utc.timestamp_opt(s, n).single().is_some();
    assert!(ok(-8334601228800, 0));
    assert!(!ok(-8334601228801, 999_999_999));
    assert!(ok(8210266876799, 999_999_999));
    assert!(!ok(8210266876800, 0));
    assert!(ok(59, 1_500_000_000));
    assert!(!ok(58, 1_500_000_000));
    assert!(!ok(59, 2_000_000_000));
    assert!(ok(-1, 1_999_999_999));
    // The same verdicts through the decoder.
    let decodes = |s: i64, n: i32| decode_game(&bytes_of(map(vec![("updated_at", time_ext(s, n))]))).is_ok();
    assert!(decodes(8210266876799, 5));
    assert!(!decodes(8210266876800, 5));
    assert!(decodes(119, 1_200_000_000));
    assert!(!decodes(120, 1_200_000_000));
}

#[test]
fn field_order_and_unknown_fields_do_not_matter() {
    let a = map(vec![("id", Value::from("g")), ("status", Value::from("lobby")), ("updated_at", time_ext(5, 6))]);
    let b = Value::Map(vec![
        (Value::from("updated_at"), time_ext(5, 6)),
        (Value::from(1), Value::from(2)),
        (Value::from("status"), Value::from("lobby")),
        (Value::from("extra"), Value::from(3)),
        (Value::from("id"), Value::from("g")),
    ]);
    let ga = decode_game(&bytes_of(a)).unwrap();
    let gb = decode_game(&bytes_of(b)).unwrap();
    assert_eq!((ga.id, ga.status, ga.updated_at), (gb.id, gb.status, gb.updated_at));
}

#[test]
fn every_order_of_distinct_fields_decodes_alike() {
    let mut q = Question { answers: Vec::new(), available_time: 20, correct_answer: 2, choices: vec!["x".into()] };
    q.register_answer("p1".into(), 2, 7);
    let game = Game {
        id: "g-9".into(),
        owner_id: "own".into(),
        quiz_id: "quiz".into(),
        status: "playing".into(),
        questions: vec![q],
        current_question: 0,
        started_at: Some(Timestamp { secs: 1_600_000_000, nanos: 1 }),
        updated_at: Timestamp { secs: 1_600_000_050, nanos: 2 },
        finished_at: None,
        players: vec![("p1".into(), Player::new("p1".into(), "Ann".into()))],
        events: vec![],
    };
    let bytes = encode_game(&game).unwrap();
    let entries = match rmpv::decode::read_value(&mut &bytes[..]).unwrap() {
        Value::Map(m) => m,
        _ => panic!("a game is stored as a map"),
    };
    let reference = decode_game(&bytes).unwrap();
    let mut reversed = entries.clone();
    reversed.reverse();
    let mut rotated = entries.clone();
    rotated.rotate_left(4);
    for order in [reversed, rotated] {
        let d = decode_game(&bytes_of(Value::Map(order))).unwrap();
        assert_eq!((&d.id, &d.owner_id, &d.quiz_id, &d.status), (&reference.id, &reference.owner_id, &reference.quiz_id, &reference.status));
        assert_eq!((d.current_question, d.started_at, d.updated_at, d.finished_at), (reference.current_question, reference.started_at, reference.updated_at, reference.finished_at));
        assert_eq!(d.players.len(), 1);
        assert_eq!(d.players[0].1.name, "Ann");
        assert_eq!(d.questions.len(), 1);
        assert_eq!(d.questions[0].answers.len(), 1);
    }
    // A bad field fails in every order.
    let mut bad = entries.clone();
    bad.push((Value::from("current_question"), Value::from("x")));
    bad.retain(|(k, v)| !(k.as_str() == Some("current_question") && v.as_i64().is_some()));
    assert!(decode_game(&bytes_of(Value::Map(bad.clone()))).is_err());
    bad.reverse();
    assert!(decode_game(&bytes_of(Value::Map(bad))).is_err());
}

#[test]
fn integers_take_their_shortest_signed_form() {
    let bytes_for = |n: i64| {
        let mut b = Vec::new();
        push_int(&mut b, n);
        b
    };
    assert_eq!(bytes_for(0), vec![0x00]);
    assert_eq!(bytes_for(127), vec![0x7f]);
    assert_eq!(bytes_for(-1), vec![0xff]);
    assert_eq!(bytes_for(-32), vec![0xe0]);
    assert_eq!(bytes_for(-33), vec![0xd0, 0xdf]);
    assert_eq!(bytes_for(128), vec![0xd1, 0x00, 0x80]);
    assert_eq!(bytes_for(200), vec![0xd1, 0x00, 0xc8]);
    assert_eq!(bytes_for(-129), vec![0xd1, 0xff, 0x7f]);
    assert_eq!(bytes_for(40_000), vec![0xd2, 0x00, 0x00, 0x9c, 0x40]);
    assert_eq!(bytes_for(-40_000), vec![0xd2, 0xff, 0xff, 0x63, 0xc0]);
    assert_eq!(bytes_for(1 << 40), vec![0xd3, 0x00, 0x00, 0x01, 0x00, 0x00, 0x00, 0x00, 0x00]);
    assert_eq!(bytes_for(i64::MIN), vec![0xd3, 0x80, 0, 0, 0, 0, 0, 0, 0]);

    // Through the stored form, and back.
    let game = Game {
        id: "x".into(),
        owner_id: "o".into(),
        quiz_id: "q".into(),
        status: "playing".into(),
        questions: vec![],
        current_question: 200,
        started_at: None,
        updated_at: Timestamp { secs: 1, nanos: 2 },
        finished_at: None,
        players: vec![],
        events: vec![],
    };
    let bytes = encode_game(&game).unwrap();
    let mut key_then_value = vec![0xb0];
    key_then_value.extend_from_slice(b"current_question");
    key_then_value.extend_from_slice(&[0xd1, 0x00, 0xc8]);
    assert!(bytes.windows(key_then_value.len()).any(|w| w == &key_then_value[..]));
    assert_eq!(decode_game(&bytes).unwrap().current_question, 200);
}
