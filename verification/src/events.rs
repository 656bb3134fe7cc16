use crate::assoc::{entries_view, keys_distinct};
use crate::question::texts_view;
use vstd::prelude::*;

verus! {

/// The names of the three best players at the end of a game; a place that no
/// player takes holds the empty text.
#[derive(Clone, Debug)]
pub struct Leaderboard {
    pub gold: String,
    pub silver: String,
    pub bronze: String,
}

pub struct LeaderboardView {
    pub gold: Seq<char>,
    pub silver: Seq<char>,
    pub bronze: Seq<char>,
}

impl View for Leaderboard {
    type V = LeaderboardView;

    open spec fn view(&self) -> LeaderboardView {
        LeaderboardView { gold: self.gold@, silver: self.silver@, bronze: self.bronze@ }
    }
}

/// Something that happened in a game, with the user ids it is sent to.
#[derive(Clone, Debug)]
pub enum GameEvent {
    PlayerJoined { game_id: String, player_id: String, player_name: String, audience: Vec<String> },
    GameStarted { game_id: String, audience: Vec<String> },
    QuestionUpdated { game_id: String, current_question: i64, audience: Vec<String> },
    AnswerRegistered { game_id: String, player_id: String, audience: Vec<String> },
    GameFinished { game_id: String, leaderboard: Leaderboard, audience: Vec<String> },
}

pub enum EventView {
    PlayerJoined {
        game_id: Seq<char>,
        player_id: Seq<char>,
        player_name: Seq<char>,
        audience: Seq<Seq<char>>,
    },
    GameStarted { game_id: Seq<char>, audience: Seq<Seq<char>> },
    QuestionUpdated { game_id: Seq<char>, current_question: i64, audience: Seq<Seq<char>> },
    AnswerRegistered { game_id: Seq<char>, player_id: Seq<char>, audience: Seq<Seq<char>> },
    GameFinished { game_id: Seq<char>, leaderboard: LeaderboardView, audience: Seq<Seq<char>> },
}

impl View for GameEvent {
    type V = EventView;

    open spec fn view(&self) -> EventView {
        match self {
            GameEvent::PlayerJoined { game_id, player_id, player_name, audience } => EventView::PlayerJoined {
                game_id: game_id@,
                player_id: player_id@,
                player_name: player_name@,
                audience: texts_view(audience@),
            },
            GameEvent::GameStarted { game_id, audience } => EventView::GameStarted {
                game_id: game_id@,
                audience: texts_view(audience@),
            },
            GameEvent::QuestionUpdated { game_id, current_question, audience } => EventView::QuestionUpdated {
                game_id: game_id@,
                current_question: *current_question,
                audience: texts_view(audience@),
            },
            GameEvent::AnswerRegistered { game_id, player_id, audience } => EventView::AnswerRegistered {
                game_id: game_id@,
                player_id: player_id@,
                audience: texts_view(audience@),
            },
            GameEvent::GameFinished { game_id, leaderboard, audience } => EventView::GameFinished {
                game_id: game_id@,
                leaderboard: leaderboard@,
                audience: texts_view(audience@),
            },
        }
    }
}

/// The name under which an event is announced.
pub open spec fn event_type_name(e: EventView) -> Seq<char> {
    match e {
        EventView::PlayerJoined { .. } => "PlayerJoined"@,
        EventView::GameStarted { .. } => "GameStarted"@,
        EventView::QuestionUpdated { .. } => "QuestionUpdated"@,
        EventView::AnswerRegistered { .. } => "AnswerRegistered"@,
        EventView::GameFinished { .. } => "GameFinished"@,
    }
}

/// The user ids an event is sent to.
pub open spec fn audience_of(e: EventView) -> Seq<Seq<char>> {
    match e {
        EventView::PlayerJoined { audience, .. } => audience,
        EventView::GameStarted { audience, .. } => audience,
        EventView::QuestionUpdated { audience, .. } => audience,
        EventView::AnswerRegistered { audience, .. } => audience,
        EventView::GameFinished { audience, .. } => audience,
    }
}

/// A value in the payload object of an event.
#[derive(Clone, Debug)]
pub enum PayloadValue {
    Text(String),
    Number(i64),
    Board(Leaderboard),
}

pub enum PayloadView {
    Text(Seq<char>),
    Number(i64),
    Board(LeaderboardView),
}

impl View for PayloadValue {
    type V = PayloadView;

    open spec fn view(&self) -> PayloadView {
        match self {
            PayloadValue::Text(t) => PayloadView::Text(t@),
            PayloadValue::Number(n) => PayloadView::Number(*n),
            PayloadValue::Board(b) => PayloadView::Board(b@),
        }
    }
}

/// The fields of the payload object of an event, in order.
pub open spec fn payload_of(e: EventView) -> Seq<(Seq<char>, PayloadView)> {
    match e {
        EventView::PlayerJoined { game_id, player_id, player_name, .. } => seq![
            ("game_id"@, PayloadView::Text(game_id)),
            ("player_id"@, PayloadView::Text(player_id)),
            ("player_name"@, PayloadView::Text(player_name)),
            ("type"@, PayloadView::Text("PlayerJoined"@)),
        ],
        EventView::GameStarted { game_id, .. } => seq![
            ("game_id"@, PayloadView::Text(game_id)),
            ("type"@, PayloadView::Text("GameStarted"@)),
        ],
        EventView::QuestionUpdated { game_id, current_question, .. } => seq![
            ("game_id"@, PayloadView::Text(game_id)),
            ("current_question"@, PayloadView::Number(current_question)),
            ("type"@, PayloadView::Text("QuestionUpdated"@)),
        ],
        EventView::AnswerRegistered { game_id, player_id, .. } => seq![
            ("game_id"@, PayloadView::Text(game_id)),
            ("player_id"@, PayloadView::Text(player_id)),
            ("type"@, PayloadView::Text("AnswerRegistered"@)),
        ],
        EventView::GameFinished { game_id, leaderboard, .. } => seq![
            ("game_id"@, PayloadView::Text(game_id)),
            ("leaderboard"@, PayloadView::Board(leaderboard)),
            ("type"@, PayloadView::Text("GameFinished"@)),
        ],
    }
}

/// The names of the fields of a payload, in order.
pub open spec fn payload_names(fs: Seq<(Seq<char>, PayloadView)>) -> Seq<Seq<char>> {
    fs.map_values(|f: (Seq<char>, PayloadView)| f.0)
}

/// Every field of an event's payload carries the event's value of the same
/// name, and `type` carries the event's type name; no name occurs twice.
pub proof fn law_payload_fields_carry_their_names(e: EventView)
    ensures
        match e {
            EventView::PlayerJoined { game_id, player_id, player_name, .. } => {
                &&& payload_names(payload_of(e)) == seq!["game_id"@, "player_id"@, "player_name"@, "type"@]
                &&& payload_of(e).contains(("game_id"@, PayloadView::Text(game_id)))
                &&& payload_of(e).contains(("player_id"@, PayloadView::Text(player_id)))
                &&& payload_of(e).contains(("player_name"@, PayloadView::Text(player_name)))
                &&& payload_of(e).contains(("type"@, PayloadView::Text(event_type_name(e))))
            },
            EventView::GameStarted { game_id, .. } => {
                &&& payload_names(payload_of(e)) == seq!["game_id"@, "type"@]
                &&& payload_of(e).contains(("game_id"@, PayloadView::Text(game_id)))
                &&& payload_of(e).contains(("type"@, PayloadView::Text(event_type_name(e))))
            },
            EventView::QuestionUpdated { game_id, current_question, .. } => {
                &&& payload_names(payload_of(e)) == seq!["game_id"@, "current_question"@, "type"@]
                &&& payload_of(e).contains(("game_id"@, PayloadView::Text(game_id)))
                &&& payload_of(e).contains(("current_question"@, PayloadView::Number(current_question)))
                &&& payload_of(e).contains(("type"@, PayloadView::Text(event_type_name(e))))
            },
            EventView::AnswerRegistered { game_id, player_id, .. } => {
                &&& payload_names(payload_of(e)) == seq!["game_id"@, "player_id"@, "type"@]
                &&& payload_of(e).contains(("game_id"@, PayloadView::Text(game_id)))
                &&& payload_of(e).contains(("player_id"@, PayloadView::Text(player_id)))
                &&& payload_of(e).contains(("type"@, PayloadView::Text(event_type_name(e))))
            },
            EventView::GameFinished { game_id, leaderboard, .. } => {
                &&& payload_names(payload_of(e)) == seq!["game_id"@, "leaderboard"@, "type"@]
                &&& payload_of(e).contains(("game_id"@, PayloadView::Text(game_id)))
                &&& payload_of(e).contains(("leaderboard"@, PayloadView::Board(leaderboard)))
                &&& payload_of(e).contains(("type"@, PayloadView::Text(event_type_name(e))))
            },
        },
        keys_distinct(payload_of(e)),
{
    reveal_strlit("game_id");
    reveal_strlit("player_id");
    reveal_strlit("player_name");
    reveal_strlit("current_question");
    reveal_strlit("leaderboard");
    reveal_strlit("type");
    let fs = payload_of(e);
    assert(payload_names(fs) =~= fs.map_values(|f: (Seq<char>, PayloadView)| f.0));
    assert("player_id"@[7] != "player_name"@[7]);
    match e {
        EventView::PlayerJoined { .. } => {
            assert(payload_names(fs) =~= seq!["game_id"@, "player_id"@, "player_name"@, "type"@]);
            assert(fs[0].0 == "game_id"@ && fs[1].0 == "player_id"@ && fs[2].0 == "player_name"@ && fs[3].0 == "type"@);
        },
        EventView::GameStarted { .. } => {
            assert(payload_names(fs) =~= seq!["game_id"@, "type"@]);
            assert(fs[0].0 == "game_id"@ && fs[1].0 == "type"@);
        },
        EventView::QuestionUpdated { .. } => {
            assert(payload_names(fs) =~= seq!["game_id"@, "current_question"@, "type"@]);
            assert(fs[0].0 == "game_id"@ && fs[1].0 == "current_question"@ && fs[2].0 == "type"@);
        },
        EventView::AnswerRegistered { .. } => {
            assert(payload_names(fs) =~= seq!["game_id"@, "player_id"@, "type"@]);
            assert(fs[0].0 == "game_id"@ && fs[1].0 == "player_id"@ && fs[2].0 == "type"@);
        },
        EventView::GameFinished { .. } => {
            assert(payload_names(fs) =~= seq!["game_id"@, "leaderboard"@, "type"@]);
            assert(fs[0].0 == "game_id"@ && fs[1].0 == "leaderboard"@ && fs[2].0 == "type"@);
        },
    }
}

fn text(s: &str) -> (r: String)
    ensures
        r@ == s@,
{
    s.to_owned()
}

fn copy_board(b: &Leaderboard) -> (r: Leaderboard)
    ensures
        r@ == b@,
{
    Leaderboard { gold: b.gold.clone(), silver: b.silver.clone(), bronze: b.bronze.clone() }
}

impl GameEvent {
    pub fn event_type(&self) -> (r: &'static str)
        ensures
            r@ == event_type_name(self@),
    {
        match self {
            GameEvent::PlayerJoined { .. } => "PlayerJoined",
            GameEvent::GameStarted { .. } => "GameStarted",
            GameEvent::QuestionUpdated { .. } => "QuestionUpdated",
            GameEvent::AnswerRegistered { .. } => "AnswerRegistered",
            GameEvent::GameFinished { .. } => "GameFinished",
        }
    }

    pub fn audience(&self) -> (r: &[String])
        ensures
            texts_view(r@) == audience_of(self@),
    {
        match self {
            GameEvent::PlayerJoined { audience, .. } => audience.as_slice(),
            GameEvent::GameStarted { audience, .. } => audience.as_slice(),
            GameEvent::QuestionUpdated { audience, .. } => audience.as_slice(),
            GameEvent::AnswerRegistered { audience, .. } => audience.as_slice(),
            GameEvent::GameFinished { audience, .. } => audience.as_slice(),
        }
    }

    /// The fields of the JSON object that describes this event to clients.
    pub fn payload(&self) -> (r: Vec<(String, PayloadValue)>)
        ensures
            entries_view(r@) == payload_of(self@),
    {
        let r = match self {
            GameEvent::PlayerJoined { game_id, player_id, player_name, .. } => vec![
                (text("game_id"), PayloadValue::Text(game_id.clone())),
                (text("player_id"), PayloadValue::Text(player_id.clone())),
                (text("player_name"), PayloadValue::Text(player_name.clone())),
                (text("type"), PayloadValue::Text(text("PlayerJoined"))),
            ],
            GameEvent::GameStarted { game_id, .. } => vec![
                (text("game_id"), PayloadValue::Text(game_id.clone())),
                (text("type"), PayloadValue::Text(text("GameStarted"))),
            ],
            GameEvent::QuestionUpdated { game_id, current_question, .. } => vec![
                (text("game_id"), PayloadValue::Text(game_id.clone())),
                (text("current_question"), PayloadValue::Number(*current_question)),
                (text("type"), PayloadValue::Text(text("QuestionUpdated"))),
            ],
            GameEvent::AnswerRegistered { game_id, player_id, .. } => vec![
                (text("game_id"), PayloadValue::Text(game_id.clone())),
                (text("player_id"), PayloadValue::Text(player_id.clone())),
                (text("type"), PayloadValue::Text(text("AnswerRegistered"))),
            ],
            GameEvent::GameFinished { game_id, leaderboard, .. } => vec![
                (text("game_id"), PayloadValue::Text(game_id.clone())),
                (text("leaderboard"), PayloadValue::Board(copy_board(leaderboard))),
                (text("type"), PayloadValue::Text(text("GameFinished"))),
            ],
        };
        assert(entries_view(r@) =~= payload_of(self@));
        r
    }
}

} // verus!
