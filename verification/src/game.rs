//! The game state machine: players join a game in the lobby, the owner starts
//! it, answers are registered for the current question, and moving past the
//! last question finishes the game with a leaderboard. Every change records
//! an event for the users concerned.
use crate::assoc::{entries_view, find_key, has_key, keys_distinct, lemma_first_key_index_bounds, lemma_put_distinct};
use crate::commands::Command;
use crate::events::{EventView, GameEvent, Leaderboard, LeaderboardView};
use crate::player::{Player, PlayerView};
use crate::question::{answer_record, question_with_answer, texts_view, Question, QuestionView};
use crate::scoring::{compute_leaderboard, leaderboard_of, qs_view, scoring_fits, scoring_fits_check};
use crate::time::{read_clock, valid_instant, Timestamp};
use vstd::prelude::*;

verus! {

pub const STATUS_LOBBY: &'static str = "lobby";

pub const STATUS_PLAYING: &'static str = "playing";

pub const STATUS_FINISHED: &'static str = "finished";

/// Why a command was refused.
#[derive(Clone, Copy, Debug, PartialEq, Eq, Structural)]
pub enum GameError {
    /// A game cannot start without players.
    NoPlayers,
    /// Only a game in the lobby can start.
    AlreadyStarted,
    /// The system clock could not be read as a UTC instant.
    ClockUnavailable,
}

/// The state of one game.
#[derive(Clone, Debug)]
pub struct Game {
    pub id: String,
    pub owner_id: String,
    pub quiz_id: String,
    pub status: String,
    pub questions: Vec<Question>,
    pub current_question: i64,
    pub started_at: Option<Timestamp>,
    pub updated_at: Timestamp,
    pub finished_at: Option<Timestamp>,
    pub players: Vec<(String, Player)>,
    pub events: Vec<GameEvent>,
}

pub struct GameView {
    pub id: Seq<char>,
    pub owner_id: Seq<char>,
    pub quiz_id: Seq<char>,
    pub status: Seq<char>,
    pub questions: Seq<QuestionView>,
    pub current_question: i64,
    pub started_at: Option<Timestamp>,
    pub updated_at: Timestamp,
    pub finished_at: Option<Timestamp>,
    pub players: Seq<(Seq<char>, PlayerView)>,
    pub events: Seq<EventView>,
}

pub open spec fn events_view(s: Seq<GameEvent>) -> Seq<EventView> {
    s.map_values(|e: GameEvent| e@)
}

impl View for Game {
    type V = GameView;

    open spec fn view(&self) -> GameView {
        GameView {
            id: self.id@,
            owner_id: self.owner_id@,
            quiz_id: self.quiz_id@,
            status: self.status@,
            questions: qs_view(self.questions@),
            current_question: self.current_question,
            started_at: self.started_at,
            updated_at: self.updated_at,
            finished_at: self.finished_at,
            players: entries_view(self.players@),
            events: events_view(self.events@),
        }
    }
}

/// A well-formed game holds each player id once, and each question holds at
/// most one answer per player.
pub open spec fn game_wf(g: GameView) -> bool {
    &&& keys_distinct(g.players)
    &&& forall|i: int| 0 <= i < g.questions.len() ==> keys_distinct(#[trigger] g.questions[i].answers)
}

/// Every instant of the game is one that chrono accepts.
pub open spec fn game_instants_valid(g: GameView) -> bool {
    &&& valid_instant(g.updated_at)
    &&& g.started_at matches Some(t) ==> valid_instant(t)
    &&& g.finished_at matches Some(t) ==> valid_instant(t)
}

/// The owner followed by the id of every player.
pub open spec fn participants_of(g: GameView) -> Seq<Seq<char>> {
    seq![g.owner_id] + g.players.map_values(|e: (Seq<char>, PlayerView)| e.1.id)
}

/// A player joins: added unless the id is already there; announced to the
/// owner and the player either way.
pub open spec fn after_join(g: GameView, id: Seq<char>, name: Seq<char>, now: Timestamp) -> GameView {
    GameView {
        players: if has_key(g.players, id) {
            g.players
        } else {
            g.players.push((id, PlayerView { id, name }))
        },
        events: g.events.push(
            EventView::PlayerJoined {
                game_id: g.id,
                player_id: id,
                player_name: name,
                audience: seq![g.owner_id, id],
            },
        ),
        updated_at: now,
        ..g
    }
}

/// Whether a game may start, and if not, why.
pub open spec fn start_result(g: GameView) -> Result<(), GameError> {
    if g.players.len() == 0 {
        Err(GameError::NoPlayers)
    } else if g.status != STATUS_LOBBY@ {
        Err(GameError::AlreadyStarted)
    } else {
        Ok(())
    }
}

/// A game that starts: playing from `started`, announced to all participants.
pub open spec fn after_start(g: GameView, started: Timestamp, updated: Timestamp) -> GameView {
    GameView {
        status: STATUS_PLAYING@,
        started_at: Some(started),
        events: g.events.push(EventView::GameStarted { game_id: g.id, audience: participants_of(g) }),
        updated_at: updated,
        ..g
    }
}

pub open spec fn on_last_question(g: GameView) -> bool {
    g.current_question == g.questions.len() - 1
}

/// What moving to the next question needs to stay within `i64`.
pub open spec fn can_advance(g: GameView) -> bool {
    if on_last_question(g) {
        scoring_fits(g.players, g.questions)
    } else {
        g.current_question < i64::MAX
    }
}

/// Moving on: past the last question the game finishes with its leaderboard,
/// otherwise the next question becomes current; announced to all participants.
pub open spec fn after_next(g: GameView, finished: Timestamp, updated: Timestamp) -> GameView {
    if on_last_question(g) {
        GameView {
            status: STATUS_FINISHED@,
            finished_at: Some(finished),
            events: g.events.push(
                EventView::GameFinished {
                    game_id: g.id,
                    leaderboard: leaderboard_of(g.players, g.questions),
                    audience: participants_of(g),
                },
            ),
            updated_at: updated,
            ..g
        }
    } else {
        GameView {
            current_question: (g.current_question + 1) as i64,
            events: g.events.push(
                EventView::QuestionUpdated {
                    game_id: g.id,
                    current_question: (g.current_question + 1) as i64,
                    audience: participants_of(g),
                },
            ),
            updated_at: updated,
            ..g
        }
    }
}

/// An answer is recorded on the current question, if there is one, and
/// announced to the owner.
pub open spec fn after_answer(
    g: GameView,
    player_id: Seq<char>,
    answer_index: i64,
    time_took: i64,
    now: Timestamp,
) -> GameView {
    let c: int = g.current_question as int;
    GameView {
        questions: if 0 <= c < g.questions.len() {
            g.questions.update(c, question_with_answer(g.questions[c], player_id, answer_index, time_took))
        } else {
            g.questions
        },
        events: g.events.push(
            EventView::AnswerRegistered { game_id: g.id, player_id, audience: seq![g.owner_id] },
        ),
        updated_at: now,
        ..g
    }
}

/// Whether a command is accepted, and if not, why.
pub open spec fn command_result(g: GameView, cmd: &Command) -> Result<(), GameError> {
    match cmd {
        Command::StartGame { .. } => start_result(g),
        _ => Ok(()),
    }
}

/// What a command needs to stay within `i64`.
pub open spec fn command_fits(g: GameView, cmd: &Command) -> bool {
    cmd is NextQuestion ==> can_advance(g)
}

/// The game after an accepted command; `first` and `second` are the clock
/// readings the command takes, in order.
pub open spec fn after_command(g: GameView, cmd: &Command, first: Timestamp, second: Timestamp) -> GameView {
    match cmd {
        Command::JoinPlayer { player_id, player_name, .. } => after_join(g, player_id@, player_name@, first),
        Command::StartGame { .. } => after_start(g, first, second),
        Command::RegisterAnswer { player_id, answer_index, time_took, .. } => after_answer(
            g,
            player_id@,
            *answer_index,
            *time_took,
            first,
        ),
        Command::NextQuestion { .. } => after_next(g, first, second),
    }
}

fn owned(s: &str) -> (r: String)
    ensures
        r@ == s@,
{
    s.to_owned()
}

impl Game {
    proof fn lemma_push_event(old_events: Seq<GameEvent>, e: GameEvent)
        ensures
            events_view(old_events.push(e)) == events_view(old_events).push(e@),
    {
        assert(events_view(old_events.push(e)) =~= events_view(old_events).push(e@));
    }

    fn owner_only(owner: &String) -> (r: Vec<String>)
        ensures
            texts_view(r@) == seq![owner@],
    {
        let mut r = Vec::new();
        r.push(owner.clone());
        assert(texts_view(r@) =~= seq![owner@]);
        r
    }

    pub fn join_player_at(&mut self, id: String, name: String, now: Timestamp)
        ensures
            final(self)@ == after_join(old(self)@, id@, name@, now),
    {
        let ghost g = self@;
        if find_key(&self.players, &id).is_none() {
            proof {
                lemma_first_key_index_bounds(g.players, id@);
            }
            self.players.push((id.clone(), Player::new(id.clone(), name.clone())));
            assert(entries_view(self.players@) =~= g.players.push((id@, PlayerView { id: id@, name: name@ })));
        } else {
            proof {
                lemma_first_key_index_bounds(g.players, id@);
            }
        }
        let ev = GameEvent::PlayerJoined {
            game_id: self.id.clone(),
            player_id: id.clone(),
            player_name: name,
            audience: vec![self.owner_id.clone(), id],
        };
        assert(texts_view(seq![self.owner_id, id]) =~= seq![g.owner_id, id@]);
        proof {
            Self::lemma_push_event(self.events@, ev);
        }
        self.events.push(ev);
        self.updated_at = now;
    }

    /// Adds a player at the current time; refused, with the game unchanged,
    /// when the clock cannot be read.
    pub fn join_player(&mut self, id: String, name: String) -> (r: Result<(), GameError>)
        ensures
            r is Ok ==> exists|t: Timestamp| valid_instant(t) && final(self)@ == after_join(old(self)@, id@, name@, t),
            r is Err ==> r == Err::<(), GameError>(GameError::ClockUnavailable) && final(self)@ == old(self)@,
    {
        let ghost g = self@;
        let ghost (i, n) = (id@, name@);
        match read_clock() {
            Some(t) => {
                self.join_player_at(id, name, t);
                assert(valid_instant(t) && self@ == after_join(g, i, n, t));
                Ok(())
            },
            None => Err(GameError::ClockUnavailable),
        }
    }

    pub fn participants(&self) -> (r: Vec<String>)
        ensures
            texts_view(r@) == participants_of(self@),
    {
        let ghost ps = self@.players;
        let mut ids = vec![self.owner_id.clone()];
        let mut i: usize = 0;
        while i < self.players.len()
            invariant
                i <= self.players.len(),
                ps == entries_view(self.players@),
                texts_view(ids@) == seq![self.owner_id@] + ps.take(i as int).map_values(
                    |e: (Seq<char>, PlayerView)| e.1.id,
                ),
            decreases self.players.len() - i,
        {
            let ghost before = ids@;
            ids.push(self.players[i].1.id.clone());
            assert(ps[i as int].1.id == self.players@[i as int].1.id@);
            assert(ps.take(i as int + 1) =~= ps.take(i as int).push(ps[i as int]));
            assert(texts_view(ids@) =~= texts_view(before).push(ps[i as int].1.id));
            assert(texts_view(ids@) =~= seq![self.owner_id@] + ps.take(i as int + 1).map_values(
                |e: (Seq<char>, PlayerView)| e.1.id,
            ));
            i = i + 1;
        }
        assert(ps.take(i as int) =~= ps);
        ids
    }

    pub fn start_at(&mut self, started: Timestamp, updated: Timestamp) -> (r: Result<(), GameError>)
        ensures
            r == start_result(old(self)@),
            r is Ok ==> final(self)@ == after_start(old(self)@, started, updated),
            r is Err ==> final(self)@ == old(self)@,
    {
        let ghost g = self@;
        if self.players.len() == 0 {
            return Err(GameError::NoPlayers);
        }
        if !(self.status == owned(STATUS_LOBBY)) {
            return Err(GameError::AlreadyStarted);
        }
        self.status = owned(STATUS_PLAYING);
        self.started_at = Some(started);
        let ev = GameEvent::GameStarted { game_id: self.id.clone(), audience: self.participants() };
        proof {
            Self::lemma_push_event(self.events@, ev);
        }
        self.events.push(ev);
        self.updated_at = updated;
        Ok(())
    }

    /// Starts the game at the current time. The game's own refusals come
    /// first; an accepted start is refused, with the game unchanged, when the
    /// clock cannot be read.
    pub fn start(&mut self) -> (r: Result<(), GameError>)
        ensures
            start_result(old(self)@) is Err ==> r == start_result(old(self)@),
            r is Ok ==> start_result(old(self)@) is Ok && exists|t1: Timestamp, t2: Timestamp|
                valid_instant(t1) && valid_instant(t2) && final(self)@ == after_start(old(self)@, t1, t2),
            r is Err ==> final(self)@ == old(self)@ && (r == start_result(old(self)@) || r == Err::<
                (),
                GameError,
            >(GameError::ClockUnavailable)),
    {
        if self.players.len() == 0 {
            return Err(GameError::NoPlayers);
        }
        if !(self.status == owned(STATUS_LOBBY)) {
            return Err(GameError::AlreadyStarted);
        }
        match (read_clock(), read_clock()) {
            (Some(t1), Some(t2)) => self.start_at(t1, t2),
            _ => Err(GameError::ClockUnavailable),
        }
    }

    pub fn leaderboard(&self) -> (lb: Leaderboard)
        requires
            scoring_fits(self@.players, self@.questions),
        ensures
            lb@ == leaderboard_of(self@.players, self@.questions),
    {
        compute_leaderboard(&self.players, &self.questions)
    }

    pub fn next_question_at(&mut self, finished: Timestamp, updated: Timestamp)
        requires
            can_advance(old(self)@),
        ensures
            final(self)@ == after_next(old(self)@, finished, updated),
    {
        let ghost g = self@;
        let last: i128 = self.questions.len() as i128 - 1;
        let ev = if self.current_question as i128 == last {
            self.status = owned(STATUS_FINISHED);
            self.finished_at = Some(finished);
            GameEvent::GameFinished {
                game_id: self.id.clone(),
                leaderboard: self.leaderboard(),
                audience: self.participants(),
            }
        } else {
            self.current_question = self.current_question + 1;
            GameEvent::QuestionUpdated {
                game_id: self.id.clone(),
                current_question: self.current_question,
                audience: self.participants(),
            }
        };
        proof {
            Self::lemma_push_event(self.events@, ev);
        }
        self.events.push(ev);
        self.updated_at = updated;
    }

    /// Moves on at the current time; refused, with the game unchanged, when
    /// the clock cannot be read.
    pub fn next_question(&mut self) -> (r: Result<(), GameError>)
        requires
            can_advance(old(self)@),
        ensures
            r is Ok ==> exists|t1: Timestamp, t2: Timestamp|
                valid_instant(t1) && valid_instant(t2) && final(self)@ == after_next(old(self)@, t1, t2),
            r is Err ==> r == Err::<(), GameError>(GameError::ClockUnavailable) && final(self)@ == old(self)@,
    {
        match (read_clock(), read_clock()) {
            (Some(t1), Some(t2)) => {
                self.next_question_at(t1, t2);
                Ok(())
            },
            _ => Err(GameError::ClockUnavailable),
        }
    }

    pub fn register_answer_at(&mut self, player_id: &str, answer_index: i64, time_took: i64, now: Timestamp)
        ensures
            final(self)@ == after_answer(old(self)@, player_id@, answer_index, time_took, now),
    {
        let ghost g = self@;
        let idx: i64 = self.current_question;
        if idx >= 0 && (idx as i128) < (self.questions.len() as i128) {
            let i: usize = idx as usize;
            let mut q = Question { answers: Vec::new(), available_time: 0, correct_answer: 0, choices: Vec::new() };
            self.questions.set_and_swap(i, &mut q);
            q.register_answer(owned(player_id), answer_index, time_took);
            self.questions.set_and_swap(i, &mut q);
            assert(qs_view(self.questions@) =~= g.questions.update(
                i as int,
                question_with_answer(g.questions[i as int], player_id@, answer_index, time_took),
            ));
        }
        let ev = GameEvent::AnswerRegistered {
            game_id: self.id.clone(),
            player_id: owned(player_id),
            audience: Self::owner_only(&self.owner_id),
        };
        proof {
            Self::lemma_push_event(self.events@, ev);
        }
        self.events.push(ev);
        self.updated_at = now;
    }

    /// Records an answer at the current time; refused, with the game
    /// unchanged, when the clock cannot be read.
    pub fn register_answer(&mut self, player_id: &str, answer_index: i64, time_took: i64) -> (r: Result<
        (),
        GameError,
    >)
        ensures
            r is Ok ==> exists|t: Timestamp|
                valid_instant(t) && final(self)@ == after_answer(old(self)@, player_id@, answer_index, time_took, t),
            r is Err ==> r == Err::<(), GameError>(GameError::ClockUnavailable) && final(self)@ == old(self)@,
    {
        let ghost g = self@;
        match read_clock() {
            Some(t) => {
                self.register_answer_at(player_id, answer_index, time_took, t);
                assert(valid_instant(t) && self@ == after_answer(g, player_id@, answer_index, time_took, t));
                Ok(())
            },
            None => Err(GameError::ClockUnavailable),
        }
    }

    /// Whether moving to the next question stays within `i64`.
    pub fn can_move_on(&self) -> (r: bool)
        ensures
            r == can_advance(self@),
    {
        let last: i128 = self.questions.len() as i128 - 1;
        if self.current_question as i128 == last {
            scoring_fits_check(&self.players, &self.questions)
        } else {
            self.current_question < i64::MAX
        }
    }

    /// Whether applying `cmd` stays within `i64`.
    pub fn fits_command(&self, cmd: &Command) -> (r: bool)
        ensures
            r == command_fits(self@, cmd),
    {
        match cmd {
            Command::NextQuestion { .. } => self.can_move_on(),
            _ => true,
        }
    }

    pub fn take_events(&mut self) -> (r: Vec<GameEvent>)
        ensures
            events_view(r@) == old(self)@.events,
            final(self)@ == (GameView { events: Seq::empty(), ..old(self)@ }),
    {
        let mut taken: Vec<GameEvent> = Vec::new();
        std::mem::swap(&mut self.events, &mut taken);
        assert(events_view(self.events@) =~= Seq::<EventView>::empty());
        taken
    }

    pub fn apply_command_at(&mut self, cmd: &Command, first: Timestamp, second: Timestamp) -> (r: Result<(), GameError>)
        requires
            command_fits(old(self)@, cmd),
        ensures
            r == command_result(old(self)@, cmd),
            r is Ok ==> final(self)@ == after_command(old(self)@, cmd, first, second),
            r is Err ==> final(self)@ == old(self)@,
    {
        match cmd {
            Command::JoinPlayer { player_id, player_name, .. } => {
                self.join_player_at(player_id.clone(), player_name.clone(), first);
                Ok(())
            },
            Command::StartGame { .. } => self.start_at(first, second),
            Command::RegisterAnswer { player_id, answer_index, time_took, .. } => {
                self.register_answer_at(player_id.as_str(), *answer_index, *time_took, first);
                Ok(())
            },
            Command::NextQuestion { .. } => {
                self.next_question_at(first, second);
                Ok(())
            },
        }
    }

    /// Applies a command at the current time, through the matching operation.
    /// The game's own refusals come first; an accepted command is refused,
    /// with the game unchanged, when the clock cannot be read.
    pub fn apply_command(&mut self, cmd: &Command) -> (r: Result<(), GameError>)
        requires
            command_fits(old(self)@, cmd),
        ensures
            command_result(old(self)@, cmd) is Err ==> r == command_result(old(self)@, cmd),
            r is Ok ==> command_result(old(self)@, cmd) is Ok && exists|t1: Timestamp, t2: Timestamp|
                valid_instant(t1) && valid_instant(t2) && final(self)@ == after_command(old(self)@, cmd, t1, t2),
            r is Err ==> final(self)@ == old(self)@ && (r == command_result(old(self)@, cmd) || r == Err::<
                (),
                GameError,
            >(GameError::ClockUnavailable)),
    {
        let ghost g = self@;
        match cmd {
            Command::JoinPlayer { player_id, player_name, .. } => match read_clock() {
                Some(t) => {
                    self.join_player_at(player_id.clone(), player_name.clone(), t);
                    assert(valid_instant(t) && self@ == after_command(g, cmd, t, t));
                    Ok(())
                },
                None => Err(GameError::ClockUnavailable),
            },
            Command::StartGame { .. } => {
                let r = self.start();
                proof {
                    if r is Ok {
                        let (t1, t2) = choose|t1: Timestamp, t2: Timestamp|
                            valid_instant(t1) && valid_instant(t2) && self@ == after_start(g, t1, t2);
                        assert(self@ == after_command(g, cmd, t1, t2));
                    }
                }
                r
            },
            Command::RegisterAnswer { player_id, answer_index, time_took, .. } => {
                let r = self.register_answer(player_id.as_str(), *answer_index, *time_took);
                proof {
                    if r is Ok {
                        let t = choose|t: Timestamp|
                            valid_instant(t) && self@ == after_answer(g, player_id@, *answer_index, *time_took, t);
                        assert(self@ == after_command(g, cmd, t, t));
                    }
                }
                r
            },
            Command::NextQuestion { .. } => {
                let r = self.next_question();
                proof {
                    if r is Ok {
                        let (t1, t2) = choose|t1: Timestamp, t2: Timestamp|
                            valid_instant(t1) && valid_instant(t2) && self@ == after_next(g, t1, t2);
                        assert(self@ == after_command(g, cmd, t1, t2));
                    }
                }
                r
            },
        }
    }
}

/// `a` names the owner first, then every player in joining order.
pub open spec fn names_everyone(g: GameView, a: Seq<Seq<char>>) -> bool {
    &&& a.len() == g.players.len() + 1
    &&& a[0] == g.owner_id
    &&& forall|i: int| 0 <= i < g.players.len() ==> a[i + 1] == #[trigger] g.players[i].1.id
}

/// Each operation records one event, after those already there: a join is
/// told to the owner and the joining player, an answer to the owner alone,
/// and a start, a new question and the end of the game to the owner and
/// every player. (Moving past question `i64::MAX` would overflow, as
/// `can_advance` rules out.)
pub proof fn law_operations_announce_to_their_audience(
    g: GameView,
    id: Seq<char>,
    name: Seq<char>,
    answer_index: i64,
    time_took: i64,
    t1: Timestamp,
    t2: Timestamp,
)
    ensures
        ({
            let j = after_join(g, id, name, t1);
            &&& j.events.len() == g.events.len() + 1
            &&& j.events.take(g.events.len() as int) == g.events
            &&& j.events.last() matches EventView::PlayerJoined { game_id, player_id, player_name, audience }
                && game_id == g.id && player_id == id && player_name == name && audience == seq![g.owner_id, id]
        }),
        ({
            let a = after_answer(g, id, answer_index, time_took, t1);
            &&& a.events.len() == g.events.len() + 1
            &&& a.events.take(g.events.len() as int) == g.events
            &&& a.events.last() matches EventView::AnswerRegistered { game_id, player_id, audience }
                && game_id == g.id && player_id == id && audience == seq![g.owner_id]
        }),
        ({
            let s = after_start(g, t1, t2);
            &&& s.events.len() == g.events.len() + 1
            &&& s.events.take(g.events.len() as int) == g.events
            &&& s.events.last() matches EventView::GameStarted { game_id, audience } && game_id == g.id
                && names_everyone(g, audience)
        }),
        ({
            let n = after_next(g, t1, t2);
            &&& n.events.len() == g.events.len() + 1
            &&& n.events.take(g.events.len() as int) == g.events
            &&& !on_last_question(g) && g.current_question < i64::MAX ==> n.current_question == g.current_question + 1
            &&& !on_last_question(g) && g.current_question < i64::MAX ==> (n.events.last() matches EventView::QuestionUpdated {
                game_id,
                current_question,
                audience,
            } && game_id == g.id && current_question == g.current_question + 1 && names_everyone(g, audience))
            &&& on_last_question(g) ==> n.status == STATUS_FINISHED@ && n.finished_at == Some(t1)
            &&& on_last_question(g) ==> (n.events.last() matches EventView::GameFinished {
                game_id,
                leaderboard,
                audience,
            } && game_id == g.id && leaderboard == leaderboard_of(g.players, g.questions) && names_everyone(
                g,
                audience,
            ))
        }),
{
    let p = participants_of(g);
    assert forall|i: int| 0 <= i < g.players.len() implies p[i + 1] == #[trigger] g.players[i].1.id by {}
    assert(after_join(g, id, name, t1).events.take(g.events.len() as int) =~= g.events);
    assert(after_answer(g, id, answer_index, time_took, t1).events.take(g.events.len() as int) =~= g.events);
    assert(after_start(g, t1, t2).events.take(g.events.len() as int) =~= g.events);
    assert(after_next(g, t1, t2).events.take(g.events.len() as int) =~= g.events);
}

/// Each operation changes only what it is about: a join adds the player
/// unless the id is already there, a start makes the game playing from its
/// first instant, an answer is recorded on the current question alone, and
/// every operation stamps `updated_at` with its last instant.
pub proof fn law_operations_change_what_they_name(
    g: GameView,
    id: Seq<char>,
    name: Seq<char>,
    answer_index: i64,
    time_took: i64,
    t1: Timestamp,
    t2: Timestamp,
)
    ensures
        ({
            let j = after_join(g, id, name, t1);
            &&& !has_key(g.players, id) ==> j.players == g.players.push((id, PlayerView { id, name }))
            &&& has_key(g.players, id) ==> j.players == g.players
            &&& j.questions == g.questions && j.status == g.status && j.current_question == g.current_question
            &&& j.updated_at == t1 && j.started_at == g.started_at && j.finished_at == g.finished_at
        }),
        ({
            let s = after_start(g, t1, t2);
            &&& s.status == STATUS_PLAYING@ && s.started_at == Some(t1) && s.updated_at == t2
            &&& s.players == g.players && s.questions == g.questions && s.current_question == g.current_question
            &&& s.finished_at == g.finished_at
        }),
        ({
            let a = after_answer(g, id, answer_index, time_took, t1);
            let c: int = g.current_question as int;
            &&& a.questions.len() == g.questions.len()
            &&& forall|i: int| 0 <= i < g.questions.len() && i != c ==> a.questions[i] == g.questions[i]
            &&& 0 <= c < g.questions.len() ==> a.questions[c] == question_with_answer(
                g.questions[c],
                id,
                answer_index,
                time_took,
            )
            &&& a.players == g.players && a.status == g.status && a.current_question == g.current_question
            &&& a.updated_at == t1
        }),
        ({
            let n = after_next(g, t1, t2);
            &&& n.players == g.players && n.questions == g.questions && n.started_at == g.started_at
            &&& n.updated_at == t2
            &&& !on_last_question(g) ==> n.status == g.status && n.finished_at == g.finished_at
        }),
{
}

/// Every operation keeps a game well-formed: player ids stay unique, and each
/// question keeps at most one answer per player.
pub proof fn law_operations_keep_game_well_formed(
    g: GameView,
    id: Seq<char>,
    name: Seq<char>,
    answer_index: i64,
    time_took: i64,
    t1: Timestamp,
    t2: Timestamp,
)
    requires
        game_wf(g),
    ensures
        game_wf(after_join(g, id, name, t1)),
        game_wf(after_start(g, t1, t2)),
        game_wf(after_next(g, t1, t2)),
        game_wf(after_answer(g, id, answer_index, time_took, t1)),
{
    let j = after_join(g, id, name, t1);
    if !has_key(g.players, id) {
        assert forall|a: int, b: int| 0 <= a < b < j.players.len() implies j.players[a].0 != j.players[b].0 by {
            if b == g.players.len() {
                assert(g.players[a].0 != id);
            }
        }
    }
    let r = after_answer(g, id, answer_index, time_took, t1);
    let c: int = g.current_question as int;
    if 0 <= c < g.questions.len() {
        assert(keys_distinct(g.questions[c].answers));
        lemma_put_distinct(g.questions[c].answers, id, answer_record(id, answer_index, time_took));
        assert forall|i: int| 0 <= i < r.questions.len() implies keys_distinct(#[trigger] r.questions[i].answers) by {
            if i != c {
                assert(r.questions[i] == g.questions[i]);
            }
        }
    }
}

/// Joining twice with the same id adds the player once, and both joins are
/// announced.
pub proof fn law_join_twice_adds_once(
    g: GameView,
    id: Seq<char>,
    name: Seq<char>,
    other_name: Seq<char>,
    t1: Timestamp,
    t2: Timestamp,
)
    ensures
        after_join(after_join(g, id, name, t1), id, other_name, t2).players == after_join(g, id, name, t1).players,
        has_key(after_join(g, id, name, t1).players, id),
        after_join(g, id, name, t1).players.len() <= g.players.len() + 1,
        after_join(after_join(g, id, name, t1), id, other_name, t2).events.len() == g.events.len() + 2,
{
    let j = after_join(g, id, name, t1);
    if !has_key(g.players, id) {
        assert(j.players[g.players.len() as int].0 == id);
    }
}

/// A game that has started cannot start again.
pub proof fn law_started_game_cannot_restart(g: GameView, t1: Timestamp, t2: Timestamp)
    requires
        start_result(g) is Ok,
    ensures
        start_result(after_start(g, t1, t2)) == Err::<(), GameError>(GameError::AlreadyStarted),
{
    reveal_strlit("lobby");
    reveal_strlit("playing");
    assert(STATUS_PLAYING@[0] != STATUS_LOBBY@[0]);
}

/// Commands that are refused leave the game as it was; the accepted ones keep
/// it well-formed.
pub proof fn law_commands_keep_game_well_formed(g: GameView, cmd: &Command, t1: Timestamp, t2: Timestamp)
    requires
        game_wf(g),
    ensures
        game_wf(after_command(g, cmd, t1, t2)),
{
    match cmd {
        Command::JoinPlayer { player_id, player_name, .. } => {
            law_operations_keep_game_well_formed(g, player_id@, player_name@, 0, 0, t1, t2);
        },
        Command::RegisterAnswer { player_id, answer_index, time_took, .. } => {
            law_operations_keep_game_well_formed(g, player_id@, player_id@, *answer_index, *time_took, t1, t2);
        },
        _ => {
            law_operations_keep_game_well_formed(g, g.id, g.id, 0, 0, t1, t2);
        },
    }
}

/// Every operation stamps the instants it is given, so a game whose instants
/// chrono accepts keeps that property when the clock readings are accepted too.
pub proof fn law_operations_keep_instants_valid(
    g: GameView,
    id: Seq<char>,
    name: Seq<char>,
    answer_index: i64,
    time_took: i64,
    t1: Timestamp,
    t2: Timestamp,
)
    requires
        game_instants_valid(g),
        valid_instant(t1),
        valid_instant(t2),
    ensures
        game_instants_valid(after_join(g, id, name, t1)),
        game_instants_valid(after_start(g, t1, t2)),
        game_instants_valid(after_next(g, t1, t2)),
        game_instants_valid(after_answer(g, id, answer_index, time_took, t1)),
{
}

/// A command does to a game what the matching operation does: joining,
/// starting, answering or moving on, with the same clock readings.
pub proof fn law_commands_match_operations(g: GameView, cmd: &Command, t1: Timestamp, t2: Timestamp)
    ensures
        match cmd {
            Command::JoinPlayer { player_id, player_name, .. } => command_result(g, cmd) is Ok
                && after_command(g, cmd, t1, t2) == after_join(g, player_id@, player_name@, t1),
            Command::StartGame { .. } => command_result(g, cmd) == start_result(g) && after_command(g, cmd, t1, t2)
                == after_start(g, t1, t2),
            Command::RegisterAnswer { player_id, answer_index, time_took, .. } => command_result(g, cmd) is Ok
                && after_command(g, cmd, t1, t2) == after_answer(g, player_id@, *answer_index, *time_took, t1),
            Command::NextQuestion { .. } => command_result(g, cmd) is Ok && command_fits(g, cmd) == can_advance(g)
                && after_command(g, cmd, t1, t2) == after_next(g, t1, t2),
        },
{
}

} // verus!
