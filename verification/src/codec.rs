//! The stored form of a game: a MessagePack map with ten fields in a fixed
//! order (`id`, `owner_id`, `quiz_id`, `status`, `questions`,
//! `current_question`, `started_at`, `updated_at`, `finished_at`,
//! `players`). Instants are extension values of type 5 holding the seconds
//! as a big-endian `i64` and the nanoseconds as a big-endian `i32`; a missing
//! instant is nil. Decoding accepts the fields in any order, skips unknown
//! fields and non-text keys, and lets a repeated field's last value win.
use crate::assoc::{entries_view, has_key, keys_distinct, lemma_first_key_index_bounds, lemma_put_distinct, put, put_entry};
use crate::events::EventView;
use crate::game::{game_instants_valid, game_wf, Game, GameView};
use crate::msgpack::{
    be_bytes4, be_bytes8, encodable, encoding, lemma_fits_encodable, msg_fits, msgpack_read, read_msgpack, write_msg, Msg,
    MsgOut, MsgValue,
};
use crate::player::{Player, PlayerView};
use crate::scoring::qs_view;
use crate::question::{texts_view, Answer, AnswerView, Question, QuestionView};
use crate::time::{chrono_accepts, read_clock, utc_instant_exists, valid_instant, Timestamp};
use vstd::prelude::*;

verus! {

/// Why bytes could not be turned into a game, or a game into bytes.
#[derive(Clone, Copy, Debug, PartialEq, Eq, Structural)]
pub enum CodecError {
    /// The bytes are not a MessagePack value (or writing one failed).
    Msgpack,
    ExpectedGameMap,
    ExpectedString,
    ExpectedInteger,
    IntegerOutOfRange,
    ExpectedTime,
    ExpectedTimeOrNil,
    InvalidTimestamp,
    ExpectedQuestionsArray,
    ExpectedQuestionMap,
    ExpectedAnswersMap,
    ExpectedAnswerMap,
    ExpectedChoicesArray,
    ExpectedPlayersMap,
    ExpectedPlayerMap,
    /// The system clock, which stands in for a missing `updated_at`, could
    /// not be read as a UTC instant.
    ClockUnavailable,
}

pub open spec fn res_view<T: View>(r: Result<T, CodecError>) -> Result<T::V, CodecError> {
    match r {
        Ok(t) => Ok(t@),
        Err(e) => Err(e),
    }
}

/// Reads a sequence of items into a state, item by item, stopping at the
/// first error.
pub open spec fn fold_msgs<S, E>(
    es: Seq<E>,
    init: S,
    step: spec_fn(S, E) -> Result<S, CodecError>,
) -> Result<S, CodecError>
    decreases es.len(),
{
    if es.len() == 0 {
        Ok(init)
    } else {
        match fold_msgs(es.drop_last(), init, step) {
            Ok(s) => step(s, es.last()),
            Err(e) => Err(e),
        }
    }
}

pub proof fn lemma_fold_step<S, E>(es: Seq<E>, init: S, step: spec_fn(S, E) -> Result<S, CodecError>, i: int)
    requires
        0 <= i < es.len(),
    ensures
        fold_msgs(es.take(i + 1), init, step) == match fold_msgs(es.take(i), init, step) {
            Ok(s) => step(s, es[i]),
            Err(e) => Err(e),
        },
{
    assert(es.take(i + 1).drop_last() =~= es.take(i));
    assert(es.take(i + 1).last() == es[i]);
}

pub proof fn lemma_fold_error_stays<S, E>(
    es: Seq<E>,
    init: S,
    step: spec_fn(S, E) -> Result<S, CodecError>,
    i: int,
)
    requires
        0 <= i <= es.len(),
        fold_msgs(es.take(i), init, step) is Err,
    ensures
        fold_msgs(es, init, step) == fold_msgs(es.take(i), init, step),
    decreases es.len() - i,
{
    if i < es.len() {
        lemma_fold_step(es, init, step, i);
        lemma_fold_error_stays(es, init, step, i + 1);
    } else {
        assert(es.take(i) =~= es);
    }
}

pub proof fn lemma_fold_all<S, E>(es: Seq<E>, init: S, step: spec_fn(S, E) -> Result<S, CodecError>)
    ensures
        fold_msgs(es.take(es.len() as int), init, step) == fold_msgs(es, init, step),
{
    assert(es.take(es.len() as int) =~= es);
}

/// The items of a map value, or nothing for other values.
pub open spec fn entries_of(m: Msg) -> Seq<(Msg, Msg)> {
    match m {
        Msg::Entries(es) => es,
        _ => Seq::empty(),
    }
}

/// The items of an array value, or nothing for other values.
pub open spec fn items_of(m: Msg) -> Seq<Msg> {
    match m {
        Msg::Array(a) => a,
        _ => Seq::empty(),
    }
}

/// A field name: the key's text, the empty text for a string that is not
/// UTF-8, and nothing for keys that are not strings.
pub open spec fn key_of(m: Msg) -> Option<Seq<char>> {
    match m {
        Msg::Str(Some(s)) => Some(s),
        Msg::Str(None) => Some(Seq::empty()),
        _ => None,
    }
}

/// A text value; a string that is not UTF-8 reads as the empty text.
pub open spec fn text_of(m: Msg) -> Result<Seq<char>, CodecError> {
    match m {
        Msg::Str(Some(s)) => Ok(s),
        Msg::Str(None) => Ok(Seq::empty()),
        _ => Err(CodecError::ExpectedString),
    }
}

pub open spec fn int_of(m: Msg) -> Result<i64, CodecError> {
    match m {
        Msg::Integer(Some(n)) => Ok(n),
        Msg::Integer(None) => Err(CodecError::IntegerOutOfRange),
        _ => Err(CodecError::ExpectedInteger),
    }
}

pub open spec fn read_be8(d: Seq<u8>, at: int) -> u64 {
    ((d[at] as u64) << 56u64) | ((d[at + 1] as u64) << 48u64) | ((d[at + 2] as u64) << 40u64) | ((d[at
        + 3] as u64) << 32u64) | ((d[at + 4] as u64) << 24u64) | ((d[at + 5] as u64) << 16u64) | ((d[at
        + 6] as u64) << 8u64) | (d[at + 7] as u64)
}

pub open spec fn read_be4(d: Seq<u8>, at: int) -> u32 {
    ((d[at] as u32) << 24u32) | ((d[at + 1] as u32) << 16u32) | ((d[at + 2] as u32) << 8u32) | (d[at
        + 3] as u32)
}

/// The instant held by the 12 bytes of a time extension.
pub open spec fn ext_time(d: Seq<u8>) -> Result<Timestamp, CodecError> {
    let secs: i64 = read_be8(d, 0) as i64;
    let nanos: u32 = read_be4(d, 8);
    if chrono_accepts(secs, nanos) {
        Ok(Timestamp { secs, nanos })
    } else {
        Err(CodecError::InvalidTimestamp)
    }
}

pub open spec fn is_time_ext(m: Msg) -> bool {
    m matches Msg::Ext(t, d) && t == 5 && d.len() == 12
}

pub open spec fn ext_data(m: Msg) -> Seq<u8> {
    match m {
        Msg::Ext(_, d) => d,
        _ => Seq::empty(),
    }
}

pub open spec fn time_of(m: Msg) -> Result<Timestamp, CodecError> {
    if is_time_ext(m) {
        ext_time(ext_data(m))
    } else {
        Err(CodecError::ExpectedTime)
    }
}

pub open spec fn opt_time_of(m: Msg) -> Result<Option<Timestamp>, CodecError> {
    if m is Nil {
        Ok(None)
    } else if is_time_ext(m) {
        match ext_time(ext_data(m)) {
            Ok(t) => Ok(Some(t)),
            Err(e) => Err(e),
        }
    } else {
        Err(CodecError::ExpectedTimeOrNil)
    }
}

// ---------------------------------------------------------------- reading

fn text_is(s: &String, lit: &str) -> (r: bool)
    ensures
        r == (s@ == lit@),
{
    *s == lit.to_owned()
}

fn key_value(m: &MsgValue) -> (r: Option<String>)
    ensures
        match r {
            Some(s) => key_of(m@) == Some(s@),
            None => key_of(m@) is None,
        },
{
    match m {
        MsgValue::Str(Some(s)) => Some(s.clone()),
        MsgValue::Str(None) => Some(String::new()),
        _ => None,
    }
}

fn text_value(m: &MsgValue) -> (r: Result<String, CodecError>)
    ensures
        res_view(r) == text_of(m@),
{
    match m {
        MsgValue::Str(Some(s)) => Ok(s.clone()),
        MsgValue::Str(None) => Ok(String::new()),
        _ => Err(CodecError::ExpectedString),
    }
}

fn int_value(m: &MsgValue) -> (r: Result<i64, CodecError>)
    ensures
        r == int_of(m@),
{
    match m {
        MsgValue::Integer(Some(n)) => Ok(*n),
        MsgValue::Integer(None) => Err(CodecError::IntegerOutOfRange),
        _ => Err(CodecError::ExpectedInteger),
    }
}

fn ext_time_value(d: &Vec<u8>) -> (r: Result<Timestamp, CodecError>)
    requires
        d.len() == 12,
    ensures
        r == ext_time(d@),
{
    let secs_bits: u64 = ((d[0] as u64) << 56u64) | ((d[1] as u64) << 48u64) | ((d[2] as u64) << 40u64)
        | ((d[3] as u64) << 32u64) | ((d[4] as u64) << 24u64) | ((d[5] as u64) << 16u64) | ((d[6] as u64)
        << 8u64) | (d[7] as u64);
    let nanos: u32 = ((d[8] as u32) << 24u32) | ((d[9] as u32) << 16u32) | ((d[10] as u32) << 8u32) | (d[11] as u32);
    let secs: i64 = secs_bits as i64;
    if utc_instant_exists(secs, nanos) {
        Ok(Timestamp { secs, nanos })
    } else {
        Err(CodecError::InvalidTimestamp)
    }
}

fn time_value(m: &MsgValue) -> (r: Result<Timestamp, CodecError>)
    ensures
        r == time_of(m@),
{
    match m {
        MsgValue::Ext(t, d) => {
            if *t == 5 && d.len() == 12 {
                ext_time_value(d)
            } else {
                Err(CodecError::ExpectedTime)
            }
        },
        _ => Err(CodecError::ExpectedTime),
    }
}

fn opt_time_value(m: &MsgValue) -> (r: Result<Option<Timestamp>, CodecError>)
    ensures
        r == opt_time_of(m@),
{
    match m {
        MsgValue::Nil => Ok(None),
        MsgValue::Ext(t, d) => {
            if *t == 5 && d.len() == 12 {
                match ext_time_value(d) {
                    Ok(x) => Ok(Some(x)),
                    Err(e) => Err(e),
                }
            } else {
                Err(CodecError::ExpectedTimeOrNil)
            }
        },
        _ => Err(CodecError::ExpectedTimeOrNil),
    }
}

// ---------------------------------------------------------------- answers

pub open spec fn empty_answer() -> AnswerView {
    AnswerView { player_id: Seq::empty(), answer_index: 0, time_to_answer: 0 }
}

/// Reads one field of an answer map.
pub open spec fn answer_field(s: AnswerView, e: (Msg, Msg)) -> Result<AnswerView, CodecError> {
    match key_of(e.0) {
        None => Ok(s),
        Some(k) => if k == "player_id"@ {
            match text_of(e.1) {
                Ok(x) => Ok(AnswerView { player_id: x, ..s }),
                Err(er) => Err(er),
            }
        } else if k == "answer_index"@ {
            match int_of(e.1) {
                Ok(n) => Ok(AnswerView { answer_index: n, ..s }),
                Err(er) => Err(er),
            }
        } else if k == "time_to_answer"@ {
            match int_of(e.1) {
                Ok(n) => Ok(AnswerView { time_to_answer: n, ..s }),
                Err(er) => Err(er),
            }
        } else {
            Ok(s)
        },
    }
}

pub open spec fn answer_step() -> spec_fn(AnswerView, (Msg, Msg)) -> Result<AnswerView, CodecError> {
    |s: AnswerView, e: (Msg, Msg)| answer_field(s, e)
}

pub open spec fn answer_of(m: Msg) -> Result<AnswerView, CodecError> {
    match m {
        Msg::Entries(es) => fold_msgs(es, empty_answer(), answer_step()),
        _ => Err(CodecError::ExpectedAnswerMap),
    }
}

/// Reads one entry of the answers map: a text key and an answer.
pub open spec fn answers_entry(
    acc: Seq<(Seq<char>, AnswerView)>,
    e: (Msg, Msg),
) -> Result<Seq<(Seq<char>, AnswerView)>, CodecError> {
    match text_of(e.0) {
        Err(er) => Err(er),
        Ok(k) => match answer_of(e.1) {
            Err(er) => Err(er),
            Ok(a) => Ok(put(acc, k, a)),
        },
    }
}

pub open spec fn answers_step() -> spec_fn(Seq<(Seq<char>, AnswerView)>, (Msg, Msg)) -> Result<
    Seq<(Seq<char>, AnswerView)>,
    CodecError,
> {
    |acc: Seq<(Seq<char>, AnswerView)>, e: (Msg, Msg)| answers_entry(acc, e)
}

pub open spec fn answers_of(m: Msg) -> Result<Seq<(Seq<char>, AnswerView)>, CodecError> {
    match m {
        Msg::Entries(es) => fold_msgs(es, Seq::empty(), answers_step()),
        _ => Err(CodecError::ExpectedAnswersMap),
    }
}

proof fn lemma_entry_view(m: &MsgValue, es: &Vec<(MsgValue, MsgValue)>, i: int)
    requires
        *m == MsgValue::Entries(*es),
        0 <= i < es.len(),
    ensures
        entries_of(m@)[i] == (es@[i].0@, es@[i].1@),
        entries_of(m@).len() == es.len(),
{
    reveal_with_fuel(<MsgValue as View>::view, 2);
}

proof fn lemma_entries_len(m: &MsgValue, es: &Vec<(MsgValue, MsgValue)>)
    requires
        *m == MsgValue::Entries(*es),
    ensures
        entries_of(m@).len() == es.len(),
{
    reveal_with_fuel(<MsgValue as View>::view, 2);
}

proof fn lemma_items_len(m: &MsgValue, a: &Vec<MsgValue>)
    requires
        *m == MsgValue::Array(*a),
    ensures
        items_of(m@).len() == a.len(),
{
    reveal_with_fuel(<MsgValue as View>::view, 2);
}

proof fn lemma_item_view(m: &MsgValue, a: &Vec<MsgValue>, i: int)
    requires
        *m == MsgValue::Array(*a),
        0 <= i < a.len(),
    ensures
        items_of(m@)[i] == a@[i]@,
        items_of(m@).len() == a.len(),
{
    reveal_with_fuel(<MsgValue as View>::view, 2);
}

fn decode_answer(m: &MsgValue) -> (r: Result<Answer, CodecError>)
    ensures
        res_view(r) == answer_of(m@),
{
    match m {
        MsgValue::Entries(es) => {
            let ghost sv = entries_of(m@);
            proof {
                lemma_entries_len(m, es);
            }
            let mut a = Answer { player_id: String::new(), answer_index: 0, time_to_answer: 0 };
            let mut i: usize = 0;
            assert(sv.take(0) =~= Seq::<(Msg, Msg)>::empty());
            while i < es.len()
                invariant
                    i <= es.len(),
                    *m == MsgValue::Entries(*es),
                    sv == entries_of(m@),
                    sv.len() == es.len(),
                    fold_msgs(sv.take(i as int), empty_answer(), answer_step()) == Ok::<AnswerView, CodecError>(a@),
                decreases es.len() - i,
            {
                proof {
                    lemma_entry_view(m, es, i as int);
                    lemma_fold_step(sv, empty_answer(), answer_step(), i as int);
                }
                match key_value(&es[i].0) {
                    None => {},
                    Some(key) => {
                        if text_is(&key, "player_id") {
                            match text_value(&es[i].1) {
                                Ok(x) => {
                                    a.player_id = x;
                                },
                                Err(e) => {
                                    proof {
                                        lemma_fold_error_stays(sv, empty_answer(), answer_step(), i as int + 1);
                                    }
                                    return Err(e);
                                },
                            }
                        } else if text_is(&key, "answer_index") {
                            match int_value(&es[i].1) {
                                Ok(n) => {
                                    a.answer_index = n;
                                },
                                Err(e) => {
                                    proof {
                                        lemma_fold_error_stays(sv, empty_answer(), answer_step(), i as int + 1);
                                    }
                                    return Err(e);
                                },
                            }
                        } else if text_is(&key, "time_to_answer") {
                            match int_value(&es[i].1) {
                                Ok(n) => {
                                    a.time_to_answer = n;
                                },
                                Err(e) => {
                                    proof {
                                        lemma_fold_error_stays(sv, empty_answer(), answer_step(), i as int + 1);
                                    }
                                    return Err(e);
                                },
                            }
                        }
                    },
                }
                i = i + 1;
            }
            proof {
                lemma_fold_all(sv, empty_answer(), answer_step());
            }
            Ok(a)
        },
        _ => Err(CodecError::ExpectedAnswerMap),
    }
}

fn decode_answer_map(m: &MsgValue) -> (r: Result<Vec<(String, Answer)>, CodecError>)
    ensures
        match r {
            Ok(v) => answers_of(m@) == Ok::<_, CodecError>(entries_view(v@)),
            Err(e) => answers_of(m@) == Err::<Seq<(Seq<char>, AnswerView)>, CodecError>(e),
        },
{
    match m {
        MsgValue::Entries(es) => {
            let ghost sv = entries_of(m@);
            proof {
                lemma_entries_len(m, es);
            }
            let mut out: Vec<(String, Answer)> = Vec::new();
            let mut i: usize = 0;
            assert(sv.take(0) =~= Seq::<(Msg, Msg)>::empty());
            assert(entries_view(out@) =~= Seq::<(Seq<char>, AnswerView)>::empty());
            while i < es.len()
                invariant
                    i <= es.len(),
                    *m == MsgValue::Entries(*es),
                    sv == entries_of(m@),
                    sv.len() == es.len(),
                    fold_msgs(sv.take(i as int), Seq::empty(), answers_step()) == Ok::<_, CodecError>(
                        entries_view(out@),
                    ),
                decreases es.len() - i,
            {
                proof {
                    lemma_entry_view(m, es, i as int);
                    lemma_fold_step(sv, Seq::empty(), answers_step(), i as int);
                }
                let key = match text_value(&es[i].0) {
                    Ok(k) => k,
                    Err(e) => {
                        proof {
                            lemma_fold_error_stays(sv, Seq::empty(), answers_step(), i as int + 1);
                        }
                        return Err(e);
                    },
                };
                let answer = match decode_answer(&es[i].1) {
                    Ok(a) => a,
                    Err(e) => {
                        proof {
                            lemma_fold_error_stays(sv, Seq::empty(), answers_step(), i as int + 1);
                        }
                        return Err(e);
                    },
                };
                put_entry(&mut out, key, answer);
                i = i + 1;
            }
            proof {
                lemma_fold_all(sv, Seq::empty(), answers_step());
            }
            Ok(out)
        },
        _ => Err(CodecError::ExpectedAnswersMap),
    }
}

// ---------------------------------------------------------------- players

pub open spec fn empty_player() -> PlayerView {
    PlayerView { id: Seq::empty(), name: Seq::empty() }
}

/// Reads one field of a player map.
pub open spec fn player_field(s: PlayerView, e: (Msg, Msg)) -> Result<PlayerView, CodecError> {
    match key_of(e.0) {
        None => Ok(s),
        Some(k) => if k == "id"@ {
            match text_of(e.1) {
                Ok(x) => Ok(PlayerView { id: x, ..s }),
                Err(er) => Err(er),
            }
        } else if k == "name"@ {
            match text_of(e.1) {
                Ok(x) => Ok(PlayerView { name: x, ..s }),
                Err(er) => Err(er),
            }
        } else {
            Ok(s)
        },
    }
}

pub open spec fn player_step() -> spec_fn(PlayerView, (Msg, Msg)) -> Result<PlayerView, CodecError> {
    |s: PlayerView, e: (Msg, Msg)| player_field(s, e)
}

pub open spec fn player_of(m: Msg) -> Result<PlayerView, CodecError> {
    match m {
        Msg::Entries(es) => fold_msgs(es, empty_player(), player_step()),
        _ => Err(CodecError::ExpectedPlayerMap),
    }
}

/// Reads one entry of the players map: a text key and a player.
pub open spec fn players_entry(
    acc: Seq<(Seq<char>, PlayerView)>,
    e: (Msg, Msg),
) -> Result<Seq<(Seq<char>, PlayerView)>, CodecError> {
    match text_of(e.0) {
        Err(er) => Err(er),
        Ok(k) => match player_of(e.1) {
            Err(er) => Err(er),
            Ok(p) => Ok(put(acc, k, p)),
        },
    }
}

pub open spec fn players_step() -> spec_fn(Seq<(Seq<char>, PlayerView)>, (Msg, Msg)) -> Result<
    Seq<(Seq<char>, PlayerView)>,
    CodecError,
> {
    |acc: Seq<(Seq<char>, PlayerView)>, e: (Msg, Msg)| players_entry(acc, e)
}

pub open spec fn players_of(m: Msg) -> Result<Seq<(Seq<char>, PlayerView)>, CodecError> {
    match m {
        Msg::Entries(es) => fold_msgs(es, Seq::empty(), players_step()),
        _ => Err(CodecError::ExpectedPlayersMap),
    }
}

fn decode_player(m: &MsgValue) -> (r: Result<Player, CodecError>)
    ensures
        res_view(r) == player_of(m@),
{
    match m {
        MsgValue::Entries(es) => {
            let ghost sv = entries_of(m@);
            proof {
                lemma_entries_len(m, es);
            }
            let mut p = Player { id: String::new(), name: String::new() };
            let mut i: usize = 0;
            assert(sv.take(0) =~= Seq::<(Msg, Msg)>::empty());
            while i < es.len()
                invariant
                    i <= es.len(),
                    *m == MsgValue::Entries(*es),
                    sv == entries_of(m@),
                    sv.len() == es.len(),
                    fold_msgs(sv.take(i as int), empty_player(), player_step()) == Ok::<PlayerView, CodecError>(p@),
                decreases es.len() - i,
            {
                proof {
                    lemma_entry_view(m, es, i as int);
                    lemma_fold_step(sv, empty_player(), player_step(), i as int);
                }
                match key_value(&es[i].0) {
                    None => {},
                    Some(key) => {
                        if text_is(&key, "id") {
                            match text_value(&es[i].1) {
                                Ok(x) => {
                                    p.id = x;
                                },
                                Err(e) => {
                                    proof {
                                        lemma_fold_error_stays(sv, empty_player(), player_step(), i as int + 1);
                                    }
                                    return Err(e);
                                },
                            }
                        } else if text_is(&key, "name") {
                            match text_value(&es[i].1) {
                                Ok(x) => {
                                    p.name = x;
                                },
                                Err(e) => {
                                    proof {
                                        lemma_fold_error_stays(sv, empty_player(), player_step(), i as int + 1);
                                    }
                                    return Err(e);
                                },
                            }
                        }
                    },
                }
                i = i + 1;
            }
            proof {
                lemma_fold_all(sv, empty_player(), player_step());
            }
            Ok(p)
        },
        _ => Err(CodecError::ExpectedPlayerMap),
    }
}

fn decode_players(m: &MsgValue) -> (r: Result<Vec<(String, Player)>, CodecError>)
    ensures
        match r {
            Ok(v) => players_of(m@) == Ok::<_, CodecError>(entries_view(v@)),
            Err(e) => players_of(m@) == Err::<Seq<(Seq<char>, PlayerView)>, CodecError>(e),
        },
{
    match m {
        MsgValue::Entries(es) => {
            let ghost sv = entries_of(m@);
            proof {
                lemma_entries_len(m, es);
            }
            let mut out: Vec<(String, Player)> = Vec::new();
            let mut i: usize = 0;
            assert(sv.take(0) =~= Seq::<(Msg, Msg)>::empty());
            assert(entries_view(out@) =~= Seq::<(Seq<char>, PlayerView)>::empty());
            while i < es.len()
                invariant
                    i <= es.len(),
                    *m == MsgValue::Entries(*es),
                    sv == entries_of(m@),
                    sv.len() == es.len(),
                    fold_msgs(sv.take(i as int), Seq::empty(), players_step()) == Ok::<_, CodecError>(
                        entries_view(out@),
                    ),
                decreases es.len() - i,
            {
                proof {
                    lemma_entry_view(m, es, i as int);
                    lemma_fold_step(sv, Seq::empty(), players_step(), i as int);
                }
                let key = match text_value(&es[i].0) {
                    Ok(k) => k,
                    Err(e) => {
                        proof {
                            lemma_fold_error_stays(sv, Seq::empty(), players_step(), i as int + 1);
                        }
                        return Err(e);
                    },
                };
                let player = match decode_player(&es[i].1) {
                    Ok(p) => p,
                    Err(e) => {
                        proof {
                            lemma_fold_error_stays(sv, Seq::empty(), players_step(), i as int + 1);
                        }
                        return Err(e);
                    },
                };
                put_entry(&mut out, key, player);
                i = i + 1;
            }
            proof {
                lemma_fold_all(sv, Seq::empty(), players_step());
            }
            Ok(out)
        },
        _ => Err(CodecError::ExpectedPlayersMap),
    }
}

// ---------------------------------------------------------------- questions

/// Reads one item of the choices array.
pub open spec fn choice_item(acc: Seq<Seq<char>>, e: Msg) -> Result<Seq<Seq<char>>, CodecError> {
    match text_of(e) {
        Ok(t) => Ok(acc.push(t)),
        Err(er) => Err(er),
    }
}

pub open spec fn choices_step() -> spec_fn(Seq<Seq<char>>, Msg) -> Result<Seq<Seq<char>>, CodecError> {
    |acc: Seq<Seq<char>>, e: Msg| choice_item(acc, e)
}

pub open spec fn choices_of(m: Msg) -> Result<Seq<Seq<char>>, CodecError> {
    match m {
        Msg::Array(a) => fold_msgs(a, Seq::empty(), choices_step()),
        _ => Err(CodecError::ExpectedChoicesArray),
    }
}

pub open spec fn empty_question() -> QuestionView {
    QuestionView { answers: Seq::empty(), available_time: 0, correct_answer: 0, choices: Seq::empty() }
}

/// Reads one field of a question map.
pub open spec fn question_field(s: QuestionView, e: (Msg, Msg)) -> Result<QuestionView, CodecError> {
    match key_of(e.0) {
        None => Ok(s),
        Some(k) => if k == "answers"@ {
            match answers_of(e.1) {
                Ok(x) => Ok(QuestionView { answers: x, ..s }),
                Err(er) => Err(er),
            }
        } else if k == "available_time"@ {
            match int_of(e.1) {
                Ok(n) => Ok(QuestionView { available_time: n, ..s }),
                Err(er) => Err(er),
            }
        } else if k == "correct_answer"@ {
            match int_of(e.1) {
                Ok(n) => Ok(QuestionView { correct_answer: n, ..s }),
                Err(er) => Err(er),
            }
        } else if k == "choices"@ {
            match choices_of(e.1) {
                Ok(x) => Ok(QuestionView { choices: x, ..s }),
                Err(er) => Err(er),
            }
        } else {
            Ok(s)
        },
    }
}

pub open spec fn question_step() -> spec_fn(QuestionView, (Msg, Msg)) -> Result<QuestionView, CodecError> {
    |s: QuestionView, e: (Msg, Msg)| question_field(s, e)
}

pub open spec fn question_of(m: Msg) -> Result<QuestionView, CodecError> {
    match m {
        Msg::Entries(es) => fold_msgs(es, empty_question(), question_step()),
        _ => Err(CodecError::ExpectedQuestionMap),
    }
}

/// Reads one item of the questions array.
pub open spec fn question_item(acc: Seq<QuestionView>, e: Msg) -> Result<Seq<QuestionView>, CodecError> {
    match question_of(e) {
        Ok(q) => Ok(acc.push(q)),
        Err(er) => Err(er),
    }
}

pub open spec fn questions_step() -> spec_fn(Seq<QuestionView>, Msg) -> Result<Seq<QuestionView>, CodecError> {
    |acc: Seq<QuestionView>, e: Msg| question_item(acc, e)
}

pub open spec fn questions_of(m: Msg) -> Result<Seq<QuestionView>, CodecError> {
    match m {
        Msg::Array(a) => fold_msgs(a, Seq::empty(), questions_step()),
        _ => Err(CodecError::ExpectedQuestionsArray),
    }
}

fn decode_choices(m: &MsgValue) -> (r: Result<Vec<String>, CodecError>)
    ensures
        match r {
            Ok(v) => choices_of(m@) == Ok::<_, CodecError>(texts_view(v@)),
            Err(e) => choices_of(m@) == Err::<Seq<Seq<char>>, CodecError>(e),
        },
{
    match m {
        MsgValue::Array(a) => {
            let ghost sv = items_of(m@);
            proof {
                lemma_items_len(m, a);
            }
            let mut out: Vec<String> = Vec::new();
            let mut i: usize = 0;
            assert(sv.take(0) =~= Seq::<Msg>::empty());
            assert(texts_view(out@) =~= Seq::<Seq<char>>::empty());
            while i < a.len()
                invariant
                    i <= a.len(),
                    *m == MsgValue::Array(*a),
                    sv == items_of(m@),
                    sv.len() == a.len(),
                    fold_msgs(sv.take(i as int), Seq::empty(), choices_step()) == Ok::<_, CodecError>(
                        texts_view(out@),
                    ),
                decreases a.len() - i,
            {
                proof {
                    lemma_item_view(m, a, i as int);
                    lemma_fold_step(sv, Seq::empty(), choices_step(), i as int);
                }
                match text_value(&a[i]) {
                    Ok(t) => {
                        let ghost before = out@;
                        out.push(t);
                        assert(texts_view(out@) =~= texts_view(before).push(t@));
                    },
                    Err(e) => {
                        proof {
                            lemma_fold_error_stays(sv, Seq::empty(), choices_step(), i as int + 1);
                        }
                        return Err(e);
                    },
                }
                i = i + 1;
            }
            proof {
                lemma_fold_all(sv, Seq::empty(), choices_step());
            }
            Ok(out)
        },
        _ => Err(CodecError::ExpectedChoicesArray),
    }
}

fn decode_question(m: &MsgValue) -> (r: Result<Question, CodecError>)
    ensures
        res_view(r) == question_of(m@),
{
    match m {
        MsgValue::Entries(es) => {
            let ghost sv = entries_of(m@);
            proof {
                lemma_entries_len(m, es);
            }
            let mut q = Question { answers: Vec::new(), available_time: 0, correct_answer: 0, choices: Vec::new() };
            assert(q@.answers =~= empty_question().answers);
            assert(q@.choices =~= empty_question().choices);
            let mut i: usize = 0;
            assert(sv.take(0) =~= Seq::<(Msg, Msg)>::empty());
            while i < es.len()
                invariant
                    i <= es.len(),
                    *m == MsgValue::Entries(*es),
                    sv == entries_of(m@),
                    sv.len() == es.len(),
                    fold_msgs(sv.take(i as int), empty_question(), question_step()) == Ok::<QuestionView, CodecError>(q@),
                decreases es.len() - i,
            {
                proof {
                    lemma_entry_view(m, es, i as int);
                    lemma_fold_step(sv, empty_question(), question_step(), i as int);
                }
                match key_value(&es[i].0) {
                    None => {},
                    Some(key) => {
                        if text_is(&key, "answers") {
                            match decode_answer_map(&es[i].1) {
                                Ok(x) => {
                                    q.answers = x;
                                },
                                Err(e) => {
                                    proof {
                                        lemma_fold_error_stays(sv, empty_question(), question_step(), i as int + 1);
                                    }
                                    return Err(e);
                                },
                            }
                        } else if text_is(&key, "available_time") {
                            match int_value(&es[i].1) {
                                Ok(n) => {
                                    q.available_time = n;
                                },
                                Err(e) => {
                                    proof {
                                        lemma_fold_error_stays(sv, empty_question(), question_step(), i as int + 1);
                                    }
                                    return Err(e);
                                },
                            }
                        } else if text_is(&key, "correct_answer") {
                            match int_value(&es[i].1) {
                                Ok(n) => {
                                    q.correct_answer = n;
                                },
                                Err(e) => {
                                    proof {
                                        lemma_fold_error_stays(sv, empty_question(), question_step(), i as int + 1);
                                    }
                                    return Err(e);
                                },
                            }
                        } else if text_is(&key, "choices") {
                            match decode_choices(&es[i].1) {
                                Ok(x) => {
                                    q.choices = x;
                                },
                                Err(e) => {
                                    proof {
                                        lemma_fold_error_stays(sv, empty_question(), question_step(), i as int + 1);
                                    }
                                    return Err(e);
                                },
                            }
                        }
                    },
                }
                i = i + 1;
            }
            proof {
                lemma_fold_all(sv, empty_question(), question_step());
            }
            Ok(q)
        },
        _ => Err(CodecError::ExpectedQuestionMap),
    }
}

fn decode_questions(m: &MsgValue) -> (r: Result<Vec<Question>, CodecError>)
    ensures
        match r {
            Ok(v) => questions_of(m@) == Ok::<_, CodecError>(qs_view(v@)),
            Err(e) => questions_of(m@) == Err::<Seq<QuestionView>, CodecError>(e),
        },
{
    match m {
        MsgValue::Array(a) => {
            let ghost sv = items_of(m@);
            proof {
                lemma_items_len(m, a);
            }
            let mut out: Vec<Question> = Vec::new();
            let mut i: usize = 0;
            assert(sv.take(0) =~= Seq::<Msg>::empty());
            assert(qs_view(out@) =~= Seq::<QuestionView>::empty());
            while i < a.len()
                invariant
                    i <= a.len(),
                    *m == MsgValue::Array(*a),
                    sv == items_of(m@),
                    sv.len() == a.len(),
                    fold_msgs(sv.take(i as int), Seq::empty(), questions_step()) == Ok::<_, CodecError>(
                        qs_view(out@),
                    ),
                decreases a.len() - i,
            {
                proof {
                    lemma_item_view(m, a, i as int);
                    lemma_fold_step(sv, Seq::empty(), questions_step(), i as int);
                }
                match decode_question(&a[i]) {
                    Ok(q) => {
                        let ghost before = out@;
                        out.push(q);
                        assert(qs_view(out@) =~= qs_view(before).push(q@));
                    },
                    Err(e) => {
                        proof {
                            lemma_fold_error_stays(sv, Seq::empty(), questions_step(), i as int + 1);
                        }
                        return Err(e);
                    },
                }
                i = i + 1;
            }
            proof {
                lemma_fold_all(sv, Seq::empty(), questions_step());
            }
            Ok(out)
        },
        _ => Err(CodecError::ExpectedQuestionsArray),
    }
}

// ---------------------------------------------------------------- games

pub open spec fn empty_game(updated: Timestamp) -> GameView {
    GameView {
        id: Seq::empty(),
        owner_id: Seq::empty(),
        quiz_id: Seq::empty(),
        status: Seq::empty(),
        questions: Seq::empty(),
        current_question: 0,
        started_at: None,
        updated_at: updated,
        finished_at: None,
        players: Seq::empty(),
        events: Seq::empty(),
    }
}

/// Reads one field of a game map.
pub open spec fn game_field(s: GameView, e: (Msg, Msg)) -> Result<GameView, CodecError> {
    match key_of(e.0) {
        None => Ok(s),
        Some(k) => if k == "id"@ {
            match text_of(e.1) {
                Ok(x) => Ok(GameView { id: x, ..s }),
                Err(er) => Err(er),
            }
        } else if k == "owner_id"@ {
            match text_of(e.1) {
                Ok(x) => Ok(GameView { owner_id: x, ..s }),
                Err(er) => Err(er),
            }
        } else if k == "quiz_id"@ {
            match text_of(e.1) {
                Ok(x) => Ok(GameView { quiz_id: x, ..s }),
                Err(er) => Err(er),
            }
        } else if k == "status"@ {
            match text_of(e.1) {
                Ok(x) => Ok(GameView { status: x, ..s }),
                Err(er) => Err(er),
            }
        } else if k == "current_question"@ {
            match int_of(e.1) {
                Ok(n) => Ok(GameView { current_question: n, ..s }),
                Err(er) => Err(er),
            }
        } else if k == "started_at"@ {
            match opt_time_of(e.1) {
                Ok(t) => Ok(GameView { started_at: t, ..s }),
                Err(er) => Err(er),
            }
        } else if k == "updated_at"@ {
            match time_of(e.1) {
                Ok(t) => Ok(GameView { updated_at: t, ..s }),
                Err(er) => Err(er),
            }
        } else if k == "finished_at"@ {
            match opt_time_of(e.1) {
                Ok(t) => Ok(GameView { finished_at: t, ..s }),
                Err(er) => Err(er),
            }
        } else if k == "questions"@ {
            match questions_of(e.1) {
                Ok(x) => Ok(GameView { questions: x, ..s }),
                Err(er) => Err(er),
            }
        } else if k == "players"@ {
            match players_of(e.1) {
                Ok(x) => Ok(GameView { players: x, ..s }),
                Err(er) => Err(er),
            }
        } else {
            Ok(s)
        },
    }
}

pub open spec fn game_step() -> spec_fn(GameView, (Msg, Msg)) -> Result<GameView, CodecError> {
    |s: GameView, e: (Msg, Msg)| game_field(s, e)
}

/// The game a MessagePack value describes; `updated` stands for the
/// `updated_at` field when the value has none. No events are stored.
pub open spec fn game_of(m: Msg, updated: Timestamp) -> Result<GameView, CodecError> {
    match m {
        Msg::Entries(es) => fold_msgs(es, empty_game(updated), game_step()),
        _ => Err(CodecError::ExpectedGameMap),
    }
}

/// Reads a game from a decoded MessagePack value; `updated` is used when
/// the value has no `updated_at` field.
pub fn game_from_msg(m: &MsgValue, updated: Timestamp) -> (r: Result<Game, CodecError>)
    ensures
        res_view(r) == game_of(m@, updated),
{
    match m {
        MsgValue::Entries(es) => {
            let ghost sv = entries_of(m@);
            proof {
                lemma_entries_len(m, es);
            }
            let mut g = Game {
                id: String::new(),
                owner_id: String::new(),
                quiz_id: String::new(),
                status: String::new(),
                questions: Vec::new(),
                current_question: 0,
                started_at: None,
                updated_at: updated,
                finished_at: None,
                players: Vec::new(),
                events: Vec::new(),
            };
            assert(g@.questions =~= empty_game(updated).questions);
            assert(g@.players =~= empty_game(updated).players);
            assert(g@.events =~= empty_game(updated).events);
            let mut i: usize = 0;
            assert(sv.take(0) =~= Seq::<(Msg, Msg)>::empty());
            while i < es.len()
                invariant
                    i <= es.len(),
                    *m == MsgValue::Entries(*es),
                    sv == entries_of(m@),
                    sv.len() == es.len(),
                    g.events@.len() == 0,
                    fold_msgs(sv.take(i as int), empty_game(updated), game_step()) == Ok::<GameView, CodecError>(g@),
                decreases es.len() - i,
            {
                proof {
                    lemma_entry_view(m, es, i as int);
                    lemma_fold_step(sv, empty_game(updated), game_step(), i as int);
                }
                let mut failed: Option<CodecError> = None;
                match key_value(&es[i].0) {
                    None => {},
                    Some(key) => {
                        let v = &es[i].1;
                        if text_is(&key, "id") {
                            match text_value(v) {
                                Ok(x) => g.id = x,
                                Err(e) => failed = Some(e),
                            }
                        } else if text_is(&key, "owner_id") {
                            match text_value(v) {
                                Ok(x) => g.owner_id = x,
                                Err(e) => failed = Some(e),
                            }
                        } else if text_is(&key, "quiz_id") {
                            match text_value(v) {
                                Ok(x) => g.quiz_id = x,
                                Err(e) => failed = Some(e),
                            }
                        } else if text_is(&key, "status") {
                            match text_value(v) {
                                Ok(x) => g.status = x,
                                Err(e) => failed = Some(e),
                            }
                        } else if text_is(&key, "current_question") {
                            match int_value(v) {
                                Ok(n) => g.current_question = n,
                                Err(e) => failed = Some(e),
                            }
                        } else if text_is(&key, "started_at") {
                            match opt_time_value(v) {
                                Ok(t) => g.started_at = t,
                                Err(e) => failed = Some(e),
                            }
                        } else if text_is(&key, "updated_at") {
                            match time_value(v) {
                                Ok(t) => g.updated_at = t,
                                Err(e) => failed = Some(e),
                            }
                        } else if text_is(&key, "finished_at") {
                            match opt_time_value(v) {
                                Ok(t) => g.finished_at = t,
                                Err(e) => failed = Some(e),
                            }
                        } else if text_is(&key, "questions") {
                            match decode_questions(v) {
                                Ok(x) => g.questions = x,
                                Err(e) => failed = Some(e),
                            }
                        } else if text_is(&key, "players") {
                            match decode_players(v) {
                                Ok(x) => g.players = x,
                                Err(e) => failed = Some(e),
                            }
                        }
                    },
                }
                if let Some(e) = failed {
                    proof {
                        lemma_fold_error_stays(sv, empty_game(updated), game_step(), i as int + 1);
                    }
                    return Err(e);
                }
                assert(g@.events =~= Seq::<EventView>::empty());
                i = i + 1;
            }
            proof {
                lemma_fold_all(sv, empty_game(updated), game_step());
            }
            Ok(g)
        },
        _ => Err(CodecError::ExpectedGameMap),
    }
}

/// Two readings of the same fields from different defaults for `updated_at`:
/// equal, or equal but for `updated_at` holding each its own default.
pub open spec fn same_but_default(a: GameView, b: GameView, t1: Timestamp, t2: Timestamp) -> bool {
    a == b || (a.updated_at == t1 && b.updated_at == t2 && (GameView { updated_at: t1, ..b }) == a)
}

proof fn lemma_game_fold_default(es: Seq<(Msg, Msg)>, t1: Timestamp, t2: Timestamp, n: int)
    requires
        0 <= n <= es.len(),
    ensures
        match (
            fold_msgs(es.take(n), empty_game(t1), game_step()),
            fold_msgs(es.take(n), empty_game(t2), game_step()),
        ) {
            (Ok(a), Ok(b)) => same_but_default(a, b, t1, t2),
            (Err(x), Err(y)) => x == y,
            _ => false,
        },
    decreases n,
{
    if n == 0 {
        assert(es.take(0) =~= Seq::<(Msg, Msg)>::empty());
        assert((GameView { updated_at: t1, ..empty_game(t2) }) == empty_game(t1));
    } else {
        lemma_game_fold_default(es, t1, t2, n - 1);
        lemma_fold_step(es, empty_game(t1), game_step(), n - 1);
        lemma_fold_step(es, empty_game(t2), game_step(), n - 1);
    }
}

/// What a game's fields read to does not depend on the default for
/// `updated_at`, except for `updated_at` itself when the field is missing.
pub proof fn lemma_game_of_default(m: Msg, t1: Timestamp, t2: Timestamp)
    ensures
        game_of(m, t1) is Err ==> game_of(m, t2) == game_of(m, t1),
        game_of(m, t1) matches Ok(a) ==> game_of(m, a.updated_at) == game_of(m, t1),
{
    if let Msg::Entries(es) = m {
        lemma_game_fold_default(es, t1, t2, es.len() as int);
        lemma_fold_all(es, empty_game(t1), game_step());
        lemma_fold_all(es, empty_game(t2), game_step());
        if let Ok(a) = game_of(m, t1) {
            lemma_game_fold_default(es, t1, a.updated_at, es.len() as int);
            lemma_fold_all(es, empty_game(a.updated_at), game_step());
        }
    }
}

/// Decodes a stored game. The bytes must hold one MessagePack map; a field
/// of the wrong kind is an error. A game without `updated_at` gets the
/// current time there; the clock is read once the bytes are read, and where
/// it cannot be, decoding stops with `ClockUnavailable`.
pub fn decode_game(data: &[u8]) -> (r: Result<Game, CodecError>)
    ensures
        msgpack_read(data@) is None ==> r == Err::<Game, CodecError>(CodecError::Msgpack),
        msgpack_read(data@) matches Some(m) ==> match r {
            Ok(g) => game_of(m, g.updated_at) == Ok::<GameView, CodecError>(g@),
            Err(e) => e == CodecError::ClockUnavailable || forall|t: Timestamp| #[trigger]
                game_of(m, t) == Err::<GameView, CodecError>(e),
        },
        r matches Ok(g) ==> game_wf(g@) && game_instants_valid(g@),
        forall|g: GameView|
            game_wf(g) && game_instants_valid(g) && game_fits(g) && #[trigger] encoding(game_msg(g)) == data@ ==> match r {
                Ok(d) => d@ == (GameView { events: Seq::empty(), ..g }),
                Err(e) => e == CodecError::ClockUnavailable,
            },
{
    match read_msgpack(data) {
        None => Err(CodecError::Msgpack),
        Some(v) => {
            let t = match read_clock() {
                Some(t) => t,
                None => {
                    return Err(CodecError::ClockUnavailable);
                },
            };
            let r = game_from_msg(&v, t);
            proof {
                assert forall|t2: Timestamp| #[trigger] game_of(v@, t2) == game_of(v@, t) || game_of(v@, t) is Ok by {
                    lemma_game_of_default(v@, t, t2);
                }
                lemma_game_of_default(v@, t, t);
                law_decoded_game_is_well_formed(v@, t);
                assert forall|g: GameView|
                    game_wf(g) && game_instants_valid(g) && game_fits(g) && #[trigger] encoding(game_msg(g))
                        == data@ implies r matches Ok(d) && d@ == (GameView { events: Seq::empty(), ..g }) by {
                    assert(v@ == game_msg(g));
                    law_stored_game_reads_back(g, t);
                }
            }
            r
        },
    }
}

// ---------------------------------------------------------------- writing

pub open spec fn text_msg(s: Seq<char>) -> Msg {
    Msg::Str(Some(s))
}

pub open spec fn field(k: Seq<char>, v: Msg) -> (Msg, Msg) {
    (text_msg(k), v)
}

/// The 12 bytes of a time extension: big-endian seconds, then nanoseconds.
pub open spec fn time_bytes(t: Timestamp) -> Seq<u8> {
    be_bytes8(t.secs as u64) + be_bytes4(t.nanos)
}

pub open spec fn time_msg(t: Timestamp) -> Msg {
    Msg::Ext(5, time_bytes(t))
}

pub open spec fn opt_time_msg(t: Option<Timestamp>) -> Msg {
    match t {
        Some(x) => time_msg(x),
        None => Msg::Nil,
    }
}

pub open spec fn answer_msg(a: AnswerView) -> Msg {
    Msg::Entries(
        seq![
            field("player_id"@, text_msg(a.player_id)),
            field("answer_index"@, Msg::Integer(Some(a.answer_index))),
            field("time_to_answer"@, Msg::Integer(Some(a.time_to_answer))),
        ],
    )
}

pub open spec fn answers_msg(s: Seq<(Seq<char>, AnswerView)>) -> Msg {
    Msg::Entries(s.map_values(|e: (Seq<char>, AnswerView)| (text_msg(e.0), answer_msg(e.1))))
}

pub open spec fn choices_msg(c: Seq<Seq<char>>) -> Msg {
    Msg::Array(c.map_values(|t: Seq<char>| text_msg(t)))
}

pub open spec fn question_msg(q: QuestionView) -> Msg {
    Msg::Entries(
        seq![
            field("answers"@, answers_msg(q.answers)),
            field("available_time"@, Msg::Integer(Some(q.available_time))),
            field("correct_answer"@, Msg::Integer(Some(q.correct_answer))),
            field("choices"@, choices_msg(q.choices)),
        ],
    )
}

pub open spec fn questions_msg(qs: Seq<QuestionView>) -> Msg {
    Msg::Array(qs.map_values(|q: QuestionView| question_msg(q)))
}

pub open spec fn player_msg(p: PlayerView) -> Msg {
    Msg::Entries(seq![field("id"@, text_msg(p.id)), field("name"@, text_msg(p.name))])
}

pub open spec fn players_msg(s: Seq<(Seq<char>, PlayerView)>) -> Msg {
    Msg::Entries(s.map_values(|e: (Seq<char>, PlayerView)| (text_msg(e.0), player_msg(e.1))))
}

/// The MessagePack value a game is stored as: its ten fields in order.
pub open spec fn game_msg(g: GameView) -> Msg {
    Msg::Entries(
        seq![
            field("id"@, text_msg(g.id)),
            field("owner_id"@, text_msg(g.owner_id)),
            field("quiz_id"@, text_msg(g.quiz_id)),
            field("status"@, text_msg(g.status)),
            field("questions"@, questions_msg(g.questions)),
            field("current_question"@, Msg::Integer(Some(g.current_question))),
            field("started_at"@, opt_time_msg(g.started_at)),
            field("updated_at"@, time_msg(g.updated_at)),
            field("finished_at"@, opt_time_msg(g.finished_at)),
            field("players"@, players_msg(g.players)),
        ],
    )
}

proof fn lemma_out_entries_view(es: Vec<(MsgOut, MsgOut)>)
    ensures
        MsgOut::Entries(es)@ == Msg::Entries(es@.map_values(|e: (MsgOut, MsgOut)| (e.0@, e.1@))),
{
    reveal_with_fuel(<MsgOut as View>::view, 2);
    assert(entries_of(MsgOut::Entries(es)@) =~= es@.map_values(|e: (MsgOut, MsgOut)| (e.0@, e.1@)));
}

proof fn lemma_out_array_view(a: Vec<MsgOut>)
    ensures
        MsgOut::Array(a)@ == Msg::Array(a@.map_values(|e: MsgOut| e@)),
{
    reveal_with_fuel(<MsgOut as View>::view, 2);
    assert(items_of(MsgOut::Array(a)@) =~= a@.map_values(|e: MsgOut| e@));
}

fn text_out(s: &String) -> (r: MsgOut)
    ensures
        r@ == text_msg(s@),
{
    MsgOut::Str(s.clone())
}

fn name_out(s: &str) -> (r: MsgOut)
    ensures
        r@ == text_msg(s@),
{
    MsgOut::Str(s.to_owned())
}

fn time_out(t: Timestamp) -> (r: MsgOut)
    ensures
        r@ == time_msg(t),
{
    let s: u64 = t.secs as u64;
    let n: u32 = t.nanos;
    let bytes: Vec<u8> = vec![
        (s >> 56u64) as u8,
        (s >> 48u64) as u8,
        (s >> 40u64) as u8,
        (s >> 32u64) as u8,
        (s >> 24u64) as u8,
        (s >> 16u64) as u8,
        (s >> 8u64) as u8,
        s as u8,
        (n >> 24u32) as u8,
        (n >> 16u32) as u8,
        (n >> 8u32) as u8,
        n as u8,
    ];
    assert(bytes@ =~= time_bytes(t));
    MsgOut::Ext(5, bytes)
}

fn opt_time_out(t: Option<Timestamp>) -> (r: MsgOut)
    ensures
        r@ == opt_time_msg(t),
{
    match t {
        Some(x) => time_out(x),
        None => MsgOut::Nil,
    }
}

fn answer_out(a: &Answer) -> (r: MsgOut)
    ensures
        r@ == answer_msg(a@),
{
    let es = vec![
        (name_out("player_id"), text_out(&a.player_id)),
        (name_out("answer_index"), MsgOut::Int(a.answer_index)),
        (name_out("time_to_answer"), MsgOut::Int(a.time_to_answer)),
    ];
    proof {
        lemma_out_entries_view(es);
        assert(es@.map_values(|e: (MsgOut, MsgOut)| (e.0@, e.1@)) =~= entries_of(answer_msg(a@)));
    }
    MsgOut::Entries(es)
}

fn answers_out(v: &Vec<(String, Answer)>) -> (r: MsgOut)
    ensures
        r@ == answers_msg(entries_view(v@)),
{
    let mut es: Vec<(MsgOut, MsgOut)> = Vec::new();
    let mut i: usize = 0;
    while i < v.len()
        invariant
            i <= v.len(),
            es@.len() == i,
            forall|j: int|
                0 <= j < i ==> (#[trigger] es@[j]).0@ == text_msg(v@[j].0@) && es@[j].1@ == answer_msg(v@[j].1@),
        decreases v.len() - i,
    {
        es.push((text_out(&v[i].0), answer_out(&v[i].1)));
        i = i + 1;
    }
    proof {
        lemma_out_entries_view(es);
        assert(es@.map_values(|e: (MsgOut, MsgOut)| (e.0@, e.1@)) =~= entries_of(answers_msg(entries_view(v@))));
    }
    MsgOut::Entries(es)
}

fn choices_out(v: &Vec<String>) -> (r: MsgOut)
    ensures
        r@ == choices_msg(texts_view(v@)),
{
    let mut a: Vec<MsgOut> = Vec::new();
    let mut i: usize = 0;
    while i < v.len()
        invariant
            i <= v.len(),
            a@.len() == i,
            forall|j: int| 0 <= j < i ==> (#[trigger] a@[j])@ == text_msg(v@[j]@),
        decreases v.len() - i,
    {
        a.push(text_out(&v[i]));
        i = i + 1;
    }
    proof {
        lemma_out_array_view(a);
        assert(a@.map_values(|e: MsgOut| e@) =~= items_of(choices_msg(texts_view(v@))));
    }
    MsgOut::Array(a)
}

fn question_out(q: &Question) -> (r: MsgOut)
    ensures
        r@ == question_msg(q@),
{
    let es = vec![
        (name_out("answers"), answers_out(&q.answers)),
        (name_out("available_time"), MsgOut::Int(q.available_time)),
        (name_out("correct_answer"), MsgOut::Int(q.correct_answer)),
        (name_out("choices"), choices_out(&q.choices)),
    ];
    proof {
        lemma_out_entries_view(es);
        assert(es@.map_values(|e: (MsgOut, MsgOut)| (e.0@, e.1@)) =~= entries_of(question_msg(q@)));
    }
    MsgOut::Entries(es)
}

fn questions_out(v: &Vec<Question>) -> (r: MsgOut)
    ensures
        r@ == questions_msg(qs_view(v@)),
{
    let mut a: Vec<MsgOut> = Vec::new();
    let mut i: usize = 0;
    while i < v.len()
        invariant
            i <= v.len(),
            a@.len() == i,
            forall|j: int| 0 <= j < i ==> (#[trigger] a@[j])@ == question_msg(v@[j]@),
        decreases v.len() - i,
    {
        a.push(question_out(&v[i]));
        i = i + 1;
    }
    proof {
        lemma_out_array_view(a);
        assert(a@.map_values(|e: MsgOut| e@) =~= items_of(questions_msg(qs_view(v@))));
    }
    MsgOut::Array(a)
}

fn player_out(p: &Player) -> (r: MsgOut)
    ensures
        r@ == player_msg(p@),
{
    let es = vec![(name_out("id"), text_out(&p.id)), (name_out("name"), text_out(&p.name))];
    proof {
        lemma_out_entries_view(es);
        assert(es@.map_values(|e: (MsgOut, MsgOut)| (e.0@, e.1@)) =~= entries_of(player_msg(p@)));
    }
    MsgOut::Entries(es)
}

fn players_out(v: &Vec<(String, Player)>) -> (r: MsgOut)
    ensures
        r@ == players_msg(entries_view(v@)),
{
    let mut es: Vec<(MsgOut, MsgOut)> = Vec::new();
    let mut i: usize = 0;
    while i < v.len()
        invariant
            i <= v.len(),
            es@.len() == i,
            forall|j: int|
                0 <= j < i ==> (#[trigger] es@[j]).0@ == text_msg(v@[j].0@) && es@[j].1@ == player_msg(v@[j].1@),
        decreases v.len() - i,
    {
        es.push((text_out(&v[i].0), player_out(&v[i].1)));
        i = i + 1;
    }
    proof {
        lemma_out_entries_view(es);
        assert(es@.map_values(|e: (MsgOut, MsgOut)| (e.0@, e.1@)) =~= entries_of(players_msg(entries_view(v@))));
    }
    MsgOut::Entries(es)
}

/// The MessagePack value a game is stored as.
pub fn game_to_msg(g: &Game) -> (r: MsgOut)
    ensures
        r@ == game_msg(g@),
{
    let es = vec![
        (name_out("id"), text_out(&g.id)),
        (name_out("owner_id"), text_out(&g.owner_id)),
        (name_out("quiz_id"), text_out(&g.quiz_id)),
        (name_out("status"), text_out(&g.status)),
        (name_out("questions"), questions_out(&g.questions)),
        (name_out("current_question"), MsgOut::Int(g.current_question)),
        (name_out("started_at"), opt_time_out(g.started_at)),
        (name_out("updated_at"), time_out(g.updated_at)),
        (name_out("finished_at"), opt_time_out(g.finished_at)),
        (name_out("players"), players_out(&g.players)),
    ];
    proof {
        lemma_out_entries_view(es);
        assert(es@.map_values(|e: (MsgOut, MsgOut)| (e.0@, e.1@)) =~= entries_of(game_msg(g@)));
    }
    MsgOut::Entries(es)
}

/// A game whose stored form can be read back: its value fits the format's
/// limits (lengths and nesting).
pub open spec fn game_fits(g: GameView) -> bool {
    msg_fits(game_msg(g), 64)
}

/// Encodes a game for storage, in the stored format. Events are not stored.
/// Fails only where a length does not fit the format's 32-bit fields.
pub fn encode_game(game: &Game) -> (r: Result<Vec<u8>, CodecError>)
    ensures
        r is Ok <==> encodable(game_msg(game@)),
        r matches Ok(b) ==> b@ == encoding(game_msg(game@)),
        r is Err ==> r == Err::<Vec<u8>, CodecError>(CodecError::Msgpack),
        game_fits(game@) ==> r is Ok,
{
    let m = game_to_msg(game);
    let mut buf: Vec<u8> = Vec::new();
    proof {
        if game_fits(game@) {
            lemma_fits_encodable(game_msg(game@), 64);
        }
    }
    if write_msg(&m, &mut buf) {
        assert(buf@ =~= encoding(game_msg(game@)));
        Ok(buf)
    } else {
        Err(CodecError::Msgpack)
    }
}

// ---------------------------------------------------------------- reading back

proof fn lemma_time_bytes(t: Timestamp)
    ensures
        time_bytes(t).len() == 12,
        read_be8(time_bytes(t), 0) as i64 == t.secs,
        read_be4(time_bytes(t), 8) == t.nanos,
{
    let d = time_bytes(t);
    let u: u64 = t.secs as u64;
    let n: u32 = t.nanos;
    let x: i64 = t.secs;
    assert(d[0] == (u >> 56u64) as u8 && d[1] == (u >> 48u64) as u8 && d[2] == (u >> 40u64) as u8 && d[3]
        == (u >> 32u64) as u8);
    assert(d[4] == (u >> 24u64) as u8 && d[5] == (u >> 16u64) as u8 && d[6] == (u >> 8u64) as u8 && d[7]
        == u as u8);
    assert(d[8] == (n >> 24u32) as u8 && d[9] == (n >> 16u32) as u8 && d[10] == (n >> 8u32) as u8 && d[11]
        == n as u8);
    assert((((((u >> 56u64) as u8) as u64) << 56u64) | ((((u >> 48u64) as u8) as u64) << 48u64) | ((((u
        >> 40u64) as u8) as u64) << 40u64) | ((((u >> 32u64) as u8) as u64) << 32u64) | ((((u >> 24u64) as u8)
        as u64) << 24u64) | ((((u >> 16u64) as u8) as u64) << 16u64) | ((((u >> 8u64) as u8) as u64) << 8u64)
        | ((u as u8) as u64)) == u) by (bit_vector);
    assert((((((n >> 24u32) as u8) as u32) << 24u32) | ((((n >> 16u32) as u8) as u32) << 16u32) | ((((n
        >> 8u32) as u8) as u32) << 8u32) | ((n as u8) as u32)) == n) by (bit_vector);
    assert((x as u64) as i64 == x) by (bit_vector);
}

/// An instant that chrono accepts reads back from its time extension.
pub proof fn lemma_time_reads_back(t: Timestamp)
    requires
        chrono_accepts(t.secs, t.nanos),
    ensures
        time_of(time_msg(t)) == Ok::<Timestamp, CodecError>(t),
        opt_time_of(time_msg(t)) == Ok::<Option<Timestamp>, CodecError>(Some(t)),
{
    lemma_time_bytes(t);
}

pub proof fn lemma_answer_reads_back(a: AnswerView)
    ensures
        answer_of(answer_msg(a)) == Ok::<AnswerView, CodecError>(a),
{
    reveal_strlit("player_id");
    reveal_strlit("answer_index");
    reveal_strlit("time_to_answer");
    let es = entries_of(answer_msg(a));
    assert("player_id"@.len() == 9 && "answer_index"@.len() == 12 && "time_to_answer"@.len() == 14);
    assert(es.take(0) =~= Seq::<(Msg, Msg)>::empty());
    assert(fold_msgs(es.take(0), empty_answer(), answer_step()) == Ok::<AnswerView, CodecError>(empty_answer()));
    lemma_fold_step(es, empty_answer(), answer_step(), 0);
    lemma_fold_step(es, empty_answer(), answer_step(), 1);
    lemma_fold_step(es, empty_answer(), answer_step(), 2);
    lemma_fold_all(es, empty_answer(), answer_step());
}

pub proof fn lemma_player_reads_back(p: PlayerView)
    ensures
        player_of(player_msg(p)) == Ok::<PlayerView, CodecError>(p),
{
    reveal_strlit("id");
    reveal_strlit("name");
    let es = entries_of(player_msg(p));
    assert("id"@.len() == 2 && "name"@.len() == 4);
    assert(es.take(0) =~= Seq::<(Msg, Msg)>::empty());
    assert(fold_msgs(es.take(0), empty_player(), player_step()) == Ok::<PlayerView, CodecError>(empty_player()));
    lemma_fold_step(es, empty_player(), player_step(), 0);
    lemma_fold_step(es, empty_player(), player_step(), 1);
    lemma_fold_all(es, empty_player(), player_step());
}

proof fn lemma_answers_prefix(s: Seq<(Seq<char>, AnswerView)>, n: int)
    requires
        keys_distinct(s),
        0 <= n <= s.len(),
    ensures
        fold_msgs(entries_of(answers_msg(s)).take(n), Seq::empty(), answers_step()) == Ok::<_, CodecError>(s.take(n)),
    decreases n,
{
    let es = entries_of(answers_msg(s));
    if n == 0 {
        assert(es.take(0) =~= Seq::<(Msg, Msg)>::empty());
        assert(s.take(0) =~= Seq::<(Seq<char>, AnswerView)>::empty());
    } else {
        lemma_answers_prefix(s, n - 1);
        lemma_fold_step(es, Seq::empty(), answers_step(), n - 1);
        lemma_answer_reads_back(s[n - 1].1);
        let pre = s.take(n - 1);
        lemma_first_key_index_bounds(pre, s[n - 1].0);
        if has_key(pre, s[n - 1].0) {
            let j: int = choose|j: int| 0 <= j < pre.len() && pre[j].0 == s[n - 1].0;
            assert(s[j].0 == s[n - 1].0);
        }
        assert(pre.push((s[n - 1].0, s[n - 1].1)) =~= s.take(n));
    }
}

pub proof fn lemma_answers_read_back(s: Seq<(Seq<char>, AnswerView)>)
    requires
        keys_distinct(s),
    ensures
        answers_of(answers_msg(s)) == Ok::<_, CodecError>(s),
{
    lemma_answers_prefix(s, s.len() as int);
    lemma_fold_all(entries_of(answers_msg(s)), Seq::empty(), answers_step());
    assert(s.take(s.len() as int) =~= s);
}

proof fn lemma_players_prefix(s: Seq<(Seq<char>, PlayerView)>, n: int)
    requires
        keys_distinct(s),
        0 <= n <= s.len(),
    ensures
        fold_msgs(entries_of(players_msg(s)).take(n), Seq::empty(), players_step()) == Ok::<_, CodecError>(s.take(n)),
    decreases n,
{
    let es = entries_of(players_msg(s));
    if n == 0 {
        assert(es.take(0) =~= Seq::<(Msg, Msg)>::empty());
        assert(s.take(0) =~= Seq::<(Seq<char>, PlayerView)>::empty());
    } else {
        lemma_players_prefix(s, n - 1);
        lemma_fold_step(es, Seq::empty(), players_step(), n - 1);
        lemma_player_reads_back(s[n - 1].1);
        let pre = s.take(n - 1);
        lemma_first_key_index_bounds(pre, s[n - 1].0);
        if has_key(pre, s[n - 1].0) {
            let j: int = choose|j: int| 0 <= j < pre.len() && pre[j].0 == s[n - 1].0;
            assert(s[j].0 == s[n - 1].0);
        }
        assert(pre.push((s[n - 1].0, s[n - 1].1)) =~= s.take(n));
    }
}

pub proof fn lemma_players_read_back(s: Seq<(Seq<char>, PlayerView)>)
    requires
        keys_distinct(s),
    ensures
        players_of(players_msg(s)) == Ok::<_, CodecError>(s),
{
    lemma_players_prefix(s, s.len() as int);
    lemma_fold_all(entries_of(players_msg(s)), Seq::empty(), players_step());
    assert(s.take(s.len() as int) =~= s);
}

proof fn lemma_choices_prefix(c: Seq<Seq<char>>, n: int)
    requires
        0 <= n <= c.len(),
    ensures
        fold_msgs(items_of(choices_msg(c)).take(n), Seq::empty(), choices_step()) == Ok::<_, CodecError>(c.take(n)),
    decreases n,
{
    let a = items_of(choices_msg(c));
    if n == 0 {
        assert(a.take(0) =~= Seq::<Msg>::empty());
        assert(c.take(0) =~= Seq::<Seq<char>>::empty());
    } else {
        lemma_choices_prefix(c, n - 1);
        lemma_fold_step(a, Seq::empty(), choices_step(), n - 1);
        assert(c.take(n - 1).push(c[n - 1]) =~= c.take(n));
    }
}

pub proof fn lemma_question_reads_back(q: QuestionView)
    requires
        keys_distinct(q.answers),
    ensures
        question_of(question_msg(q)) == Ok::<QuestionView, CodecError>(q),
{
    reveal_strlit("answers");
    reveal_strlit("available_time");
    reveal_strlit("correct_answer");
    reveal_strlit("choices");
    lemma_answers_read_back(q.answers);
    lemma_choices_prefix(q.choices, q.choices.len() as int);
    lemma_fold_all(items_of(choices_msg(q.choices)), Seq::empty(), choices_step());
    assert(q.choices.take(q.choices.len() as int) =~= q.choices);
    let es = entries_of(question_msg(q));
    assert("answers"@.len() == 7 && "available_time"@.len() == 14 && "correct_answer"@.len() == 14 && "choices"@.len() == 7);
    assert("answers"@[0] == 'a' && "choices"@[0] == 'c' && "available_time"@[0] == 'a' && "correct_answer"@[0] == 'c');
    assert(es.take(0) =~= Seq::<(Msg, Msg)>::empty());
    assert(fold_msgs(es.take(0), empty_question(), question_step()) == Ok::<QuestionView, CodecError>(empty_question()));
    lemma_fold_step(es, empty_question(), question_step(), 0);
    lemma_fold_step(es, empty_question(), question_step(), 1);
    lemma_fold_step(es, empty_question(), question_step(), 2);
    lemma_fold_step(es, empty_question(), question_step(), 3);
    lemma_fold_all(es, empty_question(), question_step());
}

proof fn lemma_questions_prefix(qs: Seq<QuestionView>, n: int)
    requires
        forall|i: int| 0 <= i < qs.len() ==> keys_distinct(#[trigger] qs[i].answers),
        0 <= n <= qs.len(),
    ensures
        fold_msgs(items_of(questions_msg(qs)).take(n), Seq::empty(), questions_step()) == Ok::<_, CodecError>(
            qs.take(n),
        ),
    decreases n,
{
    let a = items_of(questions_msg(qs));
    if n == 0 {
        assert(a.take(0) =~= Seq::<Msg>::empty());
        assert(qs.take(0) =~= Seq::<QuestionView>::empty());
    } else {
        lemma_questions_prefix(qs, n - 1);
        lemma_fold_step(a, Seq::empty(), questions_step(), n - 1);
        lemma_question_reads_back(qs[n - 1]);
        assert(qs.take(n - 1).push(qs[n - 1]) =~= qs.take(n));
    }
}

pub proof fn lemma_questions_read_back(qs: Seq<QuestionView>)
    requires
        forall|i: int| 0 <= i < qs.len() ==> keys_distinct(#[trigger] qs[i].answers),
    ensures
        questions_of(questions_msg(qs)) == Ok::<_, CodecError>(qs),
{
    lemma_questions_prefix(qs, qs.len() as int);
    lemma_fold_all(items_of(questions_msg(qs)), Seq::empty(), questions_step());
    assert(qs.take(qs.len() as int) =~= qs);
}

/// The stored form of a well-formed game whose instants chrono accepts reads
/// back as the same game, without its events.
#[verifier::rlimit(50)]
pub proof fn law_stored_game_reads_back(g: GameView, default_updated: Timestamp)
    requires
        game_wf(g),
        game_instants_valid(g),
    ensures
        game_of(game_msg(g), default_updated) == Ok::<GameView, CodecError>(GameView { events: Seq::empty(), ..g }),
{
    reveal_strlit("id");
    reveal_strlit("owner_id");
    reveal_strlit("quiz_id");
    reveal_strlit("status");
    reveal_strlit("questions");
    reveal_strlit("current_question");
    reveal_strlit("started_at");
    reveal_strlit("updated_at");
    reveal_strlit("finished_at");
    reveal_strlit("players");
    lemma_questions_read_back(g.questions);
    lemma_players_read_back(g.players);
    lemma_time_reads_back(g.updated_at);
    if let Some(t) = g.started_at {
        lemma_time_reads_back(t);
    }
    if let Some(t) = g.finished_at {
        lemma_time_reads_back(t);
    }
    let es = entries_of(game_msg(g));
    let d = empty_game(default_updated);
    assert("id"@.len() == 2 && "owner_id"@.len() == 8 && "quiz_id"@.len() == 7 && "status"@.len() == 6
        && "questions"@.len() == 9 && "current_question"@.len() == 16 && "started_at"@.len() == 10
        && "updated_at"@.len() == 10 && "finished_at"@.len() == 11 && "players"@.len() == 7);
    assert("quiz_id"@[0] == 'q' && "players"@[0] == 'p' && "started_at"@[0] == 's' && "updated_at"@[0] == 'u');
    assert(fold_msgs(es.take(0), d, game_step()) == Ok::<GameView, CodecError>(d));
    assert(es.take(0) =~= Seq::<(Msg, Msg)>::empty());
    lemma_fold_step(es, d, game_step(), 0);
    lemma_fold_step(es, d, game_step(), 1);
    lemma_fold_step(es, d, game_step(), 2);
    lemma_fold_step(es, d, game_step(), 3);
    lemma_fold_step(es, d, game_step(), 4);
    lemma_fold_step(es, d, game_step(), 5);
    lemma_fold_step(es, d, game_step(), 6);
    lemma_fold_step(es, d, game_step(), 7);
    lemma_fold_step(es, d, game_step(), 8);
    lemma_fold_step(es, d, game_step(), 9);
    lemma_fold_all(es, d, game_step());
    assert(d.events =~= Seq::<EventView>::empty());
}

// ---------------------------------------------------------------- well-formedness

/// A property that every step of a fold keeps holds of its result.
proof fn lemma_fold_keeps<S, E>(
    es: Seq<E>,
    init: S,
    step: spec_fn(S, E) -> Result<S, CodecError>,
    inv: spec_fn(S) -> bool,
)
    requires
        inv(init),
        forall|s: S, e: E| inv(s) && (#[trigger] step(s, e)) is Ok ==> inv(step(s, e)->Ok_0),
    ensures
        fold_msgs(es, init, step) matches Ok(r) ==> inv(r),
    decreases es.len(),
{
    if es.len() > 0 {
        lemma_fold_keeps(es.drop_last(), init, step, inv);
        if let Ok(s) = fold_msgs(es.drop_last(), init, step) {
            assert(inv(s) && step(s, es.last()) is Ok ==> inv(step(s, es.last())->Ok_0));
        }
    }
}

pub open spec fn answers_distinct() -> spec_fn(Seq<(Seq<char>, AnswerView)>) -> bool {
    |s: Seq<(Seq<char>, AnswerView)>| keys_distinct(s)
}

pub open spec fn players_distinct() -> spec_fn(Seq<(Seq<char>, PlayerView)>) -> bool {
    |s: Seq<(Seq<char>, PlayerView)>| keys_distinct(s)
}

pub open spec fn question_wf() -> spec_fn(QuestionView) -> bool {
    |q: QuestionView| keys_distinct(q.answers)
}

pub open spec fn questions_wf() -> spec_fn(Seq<QuestionView>) -> bool {
    |qs: Seq<QuestionView>| forall|i: int| 0 <= i < qs.len() ==> keys_distinct(#[trigger] qs[i].answers)
}

pub open spec fn game_wf_fn() -> spec_fn(GameView) -> bool {
    |g: GameView| game_wf(g)
}

pub open spec fn game_instants_fn() -> spec_fn(GameView) -> bool {
    |g: GameView| game_instants_valid(g)
}

proof fn lemma_answers_of_distinct(m: Msg)
    ensures
        answers_of(m) matches Ok(s) ==> keys_distinct(s),
{
    assert forall|s: Seq<(Seq<char>, AnswerView)>, e: (Msg, Msg)|
        answers_distinct()(s) && (#[trigger] answers_step()(s, e)) is Ok implies answers_distinct()(
        answers_step()(s, e)->Ok_0,
    ) by {
        let k = text_of(e.0)->Ok_0;
        lemma_put_distinct(s, k, answer_of(e.1)->Ok_0);
    }
    lemma_fold_keeps(entries_of(m), Seq::empty(), answers_step(), answers_distinct());
}

proof fn lemma_players_of_distinct(m: Msg)
    ensures
        players_of(m) matches Ok(s) ==> keys_distinct(s),
{
    assert forall|s: Seq<(Seq<char>, PlayerView)>, e: (Msg, Msg)|
        players_distinct()(s) && (#[trigger] players_step()(s, e)) is Ok implies players_distinct()(
        players_step()(s, e)->Ok_0,
    ) by {
        let k = text_of(e.0)->Ok_0;
        lemma_put_distinct(s, k, player_of(e.1)->Ok_0);
    }
    lemma_fold_keeps(entries_of(m), Seq::empty(), players_step(), players_distinct());
}

proof fn lemma_question_of_wf(m: Msg)
    ensures
        question_of(m) matches Ok(q) ==> keys_distinct(q.answers),
{
    assert forall|s: QuestionView, e: (Msg, Msg)|
        question_wf()(s) && (#[trigger] question_step()(s, e)) is Ok implies question_wf()(
        question_step()(s, e)->Ok_0,
    ) by {
        lemma_answers_of_distinct(e.1);
    }
    lemma_fold_keeps(entries_of(m), empty_question(), question_step(), question_wf());
}

proof fn lemma_questions_of_wf(m: Msg)
    ensures
        questions_of(m) matches Ok(qs) ==> forall|i: int| 0 <= i < qs.len() ==> keys_distinct(#[trigger] qs[i].answers),
{
    assert forall|s: Seq<QuestionView>, e: Msg|
        questions_wf()(s) && (#[trigger] questions_step()(s, e)) is Ok implies questions_wf()(
        questions_step()(s, e)->Ok_0,
    ) by {
        lemma_question_of_wf(e);
        let r = questions_step()(s, e)->Ok_0;
        assert forall|i: int| 0 <= i < r.len() implies keys_distinct(#[trigger] r[i].answers) by {
            if i < s.len() {
                assert(r[i] == s[i]);
            }
        }
    }
    lemma_fold_keeps(items_of(m), Seq::empty(), questions_step(), questions_wf());
}

/// Every game read from a stored form is well-formed: each player id once,
/// and at most one answer per player on each question. Its instants are ones
/// chrono accepts, provided the default for `updated_at` is.
pub proof fn law_decoded_game_is_well_formed(m: Msg, updated: Timestamp)
    ensures
        game_of(m, updated) matches Ok(g) ==> game_wf(g),
        game_of(m, updated) matches Ok(g) ==> (valid_instant(updated) ==> game_instants_valid(g)),
{
    assert forall|s: GameView, e: (Msg, Msg)|
        game_wf_fn()(s) && (#[trigger] game_step()(s, e)) is Ok implies game_wf_fn()(game_step()(s, e)->Ok_0) by {
        lemma_players_of_distinct(e.1);
        lemma_questions_of_wf(e.1);
    }
    assert(keys_distinct(empty_game(updated).players));
    lemma_fold_keeps(entries_of(m), empty_game(updated), game_step(), game_wf_fn());
    if valid_instant(updated) {
        assert forall|s: GameView, e: (Msg, Msg)|
            game_instants_fn()(s) && (#[trigger] game_step()(s, e)) is Ok implies game_instants_fn()(
            game_step()(s, e)->Ok_0,
        ) by {}
        lemma_fold_keeps(entries_of(m), empty_game(updated), game_step(), game_instants_fn());
    }
}

/// What `decode_game` gives back of bytes that rmpv reads as the stored form
/// of a game: a well-formed game whose instants chrono accepts reads back as
/// itself, without its events, whatever the clock says.
pub proof fn law_decode_of_encode(g: GameView, bytes: Seq<u8>, now: Timestamp)
    requires
        game_wf(g),
        game_instants_valid(g),
        msgpack_read(bytes) == Some(game_msg(g)),
    ensures
        msgpack_read(bytes) matches Some(m) && game_of(m, now) == Ok::<GameView, CodecError>(
            GameView { events: Seq::empty(), ..g },
        ),
{
    law_stored_game_reads_back(g, now);
}

// ---------------------------------------------------------------- field order

pub proof fn lemma_fold_append<S, E>(
    a: Seq<E>,
    b: Seq<E>,
    init: S,
    step: spec_fn(S, E) -> Result<S, CodecError>,
)
    ensures
        fold_msgs(a + b, init, step) == match fold_msgs(a, init, step) {
            Ok(s) => fold_msgs(b, s, step),
            Err(e) => Err(e),
        },
    decreases b.len(),
{
    if b.len() == 0 {
        assert(a + b =~= a);
    } else {
        lemma_fold_append(a, b.drop_last(), init, step);
        assert((a + b).drop_last() =~= a + b.drop_last());
        assert((a + b).last() == b.last());
    }
}

/// The ten field names of a stored game.
pub open spec fn is_game_field_name(k: Seq<char>) -> bool {
    ||| k == "id"@
    ||| k == "owner_id"@
    ||| k == "quiz_id"@
    ||| k == "status"@
    ||| k == "questions"@
    ||| k == "current_question"@
    ||| k == "started_at"@
    ||| k == "updated_at"@
    ||| k == "finished_at"@
    ||| k == "players"@
}

/// An entry that decoding skips: its key is not text, or not a field name.
pub open spec fn ignored_entry(e: (Msg, Msg)) -> bool {
    match key_of(e.0) {
        None => true,
        Some(k) => !is_game_field_name(k),
    }
}

proof fn lemma_ignored_entries_keep_state(x: Seq<(Msg, Msg)>, s: GameView)
    requires
        forall|i: int| 0 <= i < x.len() ==> ignored_entry(#[trigger] x[i]),
    ensures
        fold_msgs(x, s, game_step()) == Ok::<GameView, CodecError>(s),
    decreases x.len(),
{
    if x.len() > 0 {
        lemma_ignored_entries_keep_state(x.drop_last(), s);
        assert(ignored_entry(x[x.len() - 1]));
    }
}

/// Entries whose key is not text, or not one of the ten field names, change
/// nothing: adding them to a stored game leaves what it decodes to as it was.
pub proof fn law_unknown_fields_are_ignored(es: Seq<(Msg, Msg)>, extra: Seq<(Msg, Msg)>, updated: Timestamp)
    requires
        forall|i: int| 0 <= i < extra.len() ==> ignored_entry(#[trigger] extra[i]),
    ensures
        game_of(Msg::Entries(es + extra), updated) == game_of(Msg::Entries(es), updated),
{
    lemma_fold_append(es, extra, empty_game(updated), game_step());
    if let Ok(s) = fold_msgs(es, empty_game(updated), game_step()) {
        lemma_ignored_entries_keep_state(extra, s);
    }
}

/// Two entries that are not the same field of a game: decoding skips one of
/// them, or their keys differ.
pub open spec fn distinct_fields(e1: (Msg, Msg), e2: (Msg, Msg)) -> bool {
    ignored_entry(e1) || ignored_entry(e2) || key_of(e1.0) != key_of(e2.0)
}

/// No two of the entries are the same field of a game.
pub open spec fn fields_pairwise_distinct(es: Seq<(Msg, Msg)>) -> bool {
    forall|i: int, j: int| 0 <= i < j < es.len() ==> distinct_fields(#[trigger] es[i], #[trigger] es[j])
}

/// Two readings agree on whether they succeed and, where they do, on what
/// they give; the errors of two failing readings may differ.
pub open spec fn same_reading(a: Result<GameView, CodecError>, b: Result<GameView, CodecError>) -> bool {
    &&& (a is Ok <==> b is Ok)
    &&& a is Ok ==> a == b
}

#[verifier::rlimit(50)]
proof fn lemma_fields_commute(s: GameView, e1: (Msg, Msg), e2: (Msg, Msg))
    requires
        distinct_fields(e1, e2),
    ensures
        same_reading(
            match game_field(s, e1) {
                Ok(x) => game_field(x, e2),
                Err(er) => Err(er),
            },
            match game_field(s, e2) {
                Ok(x) => game_field(x, e1),
                Err(er) => Err(er),
            },
        ),
{
    reveal_strlit("id");
    reveal_strlit("owner_id");
    reveal_strlit("quiz_id");
    reveal_strlit("status");
    reveal_strlit("questions");
    reveal_strlit("current_question");
    reveal_strlit("started_at");
    reveal_strlit("updated_at");
    reveal_strlit("finished_at");
    reveal_strlit("players");
}

proof fn lemma_fold_push(es: Seq<(Msg, Msg)>, e: (Msg, Msg), s: GameView)
    ensures
        fold_msgs(es.push(e), s, game_step()) == match fold_msgs(es, s, game_step()) {
            Ok(x) => game_field(x, e),
            Err(er) => Err(er),
        },
{
    assert(es.push(e).drop_last() =~= es);
}

/// Reading two neighbouring entries that are not the same field in the
/// other order, from any state, gives the same reading.
proof fn lemma_swap_reading(es: Seq<(Msg, Msg)>, i: int, s: GameView)
    requires
        0 <= i < es.len() - 1,
        distinct_fields(es[i], es[i + 1]),
    ensures
        same_reading(
            fold_msgs(es, s, game_step()),
            fold_msgs(es.update(i, es[i + 1]).update(i + 1, es[i]), s, game_step()),
        ),
{
    let sw = es.update(i, es[i + 1]).update(i + 1, es[i]);
    let st = game_step();
    lemma_fold_step(es, s, st, i);
    lemma_fold_step(es, s, st, i + 1);
    lemma_fold_step(sw, s, st, i);
    lemma_fold_step(sw, s, st, i + 1);
    assert(sw.take(i) =~= es.take(i));
    if let Ok(x) = fold_msgs(es.take(i), s, st) {
        lemma_fields_commute(x, es[i], es[i + 1]);
    }
    assert(es =~= es.take(i + 2) + es.skip(i + 2));
    assert(sw =~= sw.take(i + 2) + es.skip(i + 2));
    lemma_fold_append(es.take(i + 2), es.skip(i + 2), s, st);
    lemma_fold_append(sw.take(i + 2), es.skip(i + 2), s, st);
}

/// Swapping two neighbouring entries that are not the same field does not
/// change whether a stored game decodes, nor what it decodes to; only which
/// of two errors is reported first can differ.
pub proof fn law_neighbouring_fields_commute(es: Seq<(Msg, Msg)>, i: int, updated: Timestamp)
    requires
        0 <= i < es.len() - 1,
        distinct_fields(es[i], es[i + 1]),
    ensures
        same_reading(
            game_of(Msg::Entries(es), updated),
            game_of(Msg::Entries(es.update(i, es[i + 1]).update(i + 1, es[i])), updated),
        ),
{
    lemma_swap_reading(es, i, empty_game(updated));
}

/// Moving one entry to the end, past entries none of which is the same
/// field, gives the same reading.
proof fn lemma_move_to_end(es: Seq<(Msg, Msg)>, j: int, s: GameView)
    requires
        0 <= j < es.len(),
        fields_pairwise_distinct(es),
    ensures
        same_reading(fold_msgs(es, s, game_step()), fold_msgs(es.remove(j).push(es[j]), s, game_step())),
    decreases es.len() - j,
{
    if j == es.len() - 1 {
        assert(es.remove(j).push(es[j]) =~= es);
    } else {
        let sw = es.update(j, es[j + 1]).update(j + 1, es[j]);
        lemma_swap_reading(es, j, s);
        assert forall|a: int, b: int| 0 <= a < b < sw.len() implies distinct_fields(
            #[trigger] sw[a],
            #[trigger] sw[b],
        ) by {
            let a0 = if a == j { j + 1 } else if a == j + 1 { j } else { a };
            let b0 = if b == j { j + 1 } else if b == j + 1 { j } else { b };
            assert(sw[a] == es[a0] && sw[b] == es[b0]);
            if a0 < b0 {
                assert(distinct_fields(es[a0], es[b0]));
            } else {
                assert(distinct_fields(es[b0], es[a0]));
            }
        }
        lemma_move_to_end(sw, j + 1, s);
        assert(sw.remove(j + 1) =~= es.remove(j));
    }
}

/// Reading entries in another order, where no two of them are the same
/// field, gives the same reading from any state.
proof fn lemma_reorder_reading(es: Seq<(Msg, Msg)>, p: Seq<(Msg, Msg)>, s: GameView)
    requires
        fields_pairwise_distinct(es),
        p.to_multiset() == es.to_multiset(),
    ensures
        same_reading(fold_msgs(es, s, game_step()), fold_msgs(p, s, game_step())),
    decreases es.len(),
{
    broadcast use vstd::seq_lib::group_to_multiset_ensures;

    assert(p.len() == p.to_multiset().len() && es.len() == es.to_multiset().len());
    if es.len() == 0 {
        assert(p =~= es);
    } else {
        let e = p.last();
        let q = p.drop_last();
        assert(p =~= q.push(e));
        assert(p.to_multiset().count(e) > 0);
        assert(es.contains(e));
        let j = choose|j: int| 0 <= j < es.len() && es[j] == e;
        let r = es.remove(j);
        assert(q.to_multiset() =~= r.to_multiset());
        assert forall|a: int, b: int| 0 <= a < b < r.len() implies distinct_fields(
            #[trigger] r[a],
            #[trigger] r[b],
        ) by {
            let a0 = if a < j { a } else { a + 1 };
            let b0 = if b < j { b } else { b + 1 };
            assert(r[a] == es[a0] && r[b] == es[b0]);
        }
        lemma_reorder_reading(r, q, s);
        lemma_fold_push(r, e, s);
        lemma_fold_push(q, e, s);
        lemma_move_to_end(es, j, s);
    }
}

/// Decoding a stored game does not depend on the order of its entries when
/// no two of them are the same field: any reordering decodes exactly when
/// the original does, and to the same game; only which error is reported
/// first can differ.
pub proof fn law_field_order_is_irrelevant(es: Seq<(Msg, Msg)>, p: Seq<(Msg, Msg)>, updated: Timestamp)
    requires
        fields_pairwise_distinct(es),
        p.to_multiset() == es.to_multiset(),
    ensures
        same_reading(game_of(Msg::Entries(es), updated), game_of(Msg::Entries(p), updated)),
{
    lemma_reorder_reading(es, p, empty_game(updated));
}

// ---------------------------------------------------------------- field names

/// The keys of map entries, in order.
pub open spec fn entry_keys(es: Seq<(Msg, Msg)>) -> Seq<Msg> {
    es.map_values(|e: (Msg, Msg)| e.0)
}

proof fn lemma_fold_push_any<S>(es: Seq<(Msg, Msg)>, e: (Msg, Msg), init: S, step: spec_fn(S, (Msg, Msg)) -> Result<S, CodecError>)
    ensures
        fold_msgs(es.push(e), init, step) == match fold_msgs(es, init, step) {
            Ok(x) => step(x, e),
            Err(er) => Err(er),
        },
{
    assert(es.push(e).drop_last() =~= es);
}

proof fn lemma_field_name_facts()
    ensures
        "id"@.len() == 2 && "owner_id"@.len() == 8 && "quiz_id"@.len() == 7 && "status"@.len() == 6
            && "questions"@.len() == 9 && "current_question"@.len() == 16 && "started_at"@.len() == 10
            && "updated_at"@.len() == 10 && "finished_at"@.len() == 11 && "players"@.len() == 7,
        "quiz_id"@[0] == 'q' && "players"@[0] == 'p' && "started_at"@[0] == 's' && "updated_at"@[0] == 'u',
        "answers"@.len() == 7 && "available_time"@.len() == 14 && "correct_answer"@.len() == 14
            && "choices"@.len() == 7,
        "answers"@[0] == 'a' && "choices"@[0] == 'c' && "available_time"@[0] == 'a' && "correct_answer"@[0] == 'c',
        "player_id"@.len() == 9 && "answer_index"@.len() == 12 && "time_to_answer"@.len() == 14,
        "name"@.len() == 4,
{
    reveal_strlit("id");
    reveal_strlit("owner_id");
    reveal_strlit("quiz_id");
    reveal_strlit("status");
    reveal_strlit("questions");
    reveal_strlit("current_question");
    reveal_strlit("started_at");
    reveal_strlit("updated_at");
    reveal_strlit("finished_at");
    reveal_strlit("players");
    reveal_strlit("answers");
    reveal_strlit("available_time");
    reveal_strlit("correct_answer");
    reveal_strlit("choices");
    reveal_strlit("player_id");
    reveal_strlit("answer_index");
    reveal_strlit("time_to_answer");
    reveal_strlit("name");
}

/// An instant is stored as extension type 5 of 12 bytes: the seconds as a
/// big-endian 64-bit integer, then the nanoseconds as a big-endian 32-bit
/// integer; a missing instant is stored as nil.
pub proof fn law_instants_are_stored_as_time_extensions(t: Timestamp, o: Option<Timestamp>)
    ensures
        time_msg(t) matches Msg::Ext(ty, d) && ty == 5 && d.len() == 12 && d.take(8) == be_bytes8(t.secs as u64)
            && d.skip(8) == be_bytes4(t.nanos),
        o is None ==> opt_time_msg(o) == Msg::Nil,
        o matches Some(x) ==> opt_time_msg(o) == time_msg(x),
{
    assert(time_bytes(t).take(8) =~= be_bytes8(t.secs as u64));
    assert(time_bytes(t).skip(8) =~= be_bytes4(t.nanos));
}

/// The stored form of a game holds its ten fields under their names, in the
/// order Go writes them, and each name holds the stored form of the field it
/// names.
pub proof fn law_stored_game_names_each_field(g: GameView)
    ensures
        entry_keys(entries_of(game_msg(g))) == seq![
            text_msg("id"@),
            text_msg("owner_id"@),
            text_msg("quiz_id"@),
            text_msg("status"@),
            text_msg("questions"@),
            text_msg("current_question"@),
            text_msg("started_at"@),
            text_msg("updated_at"@),
            text_msg("finished_at"@),
            text_msg("players"@),
        ],
        entries_of(game_msg(g)).contains(field("id"@, text_msg(g.id))),
        entries_of(game_msg(g)).contains(field("owner_id"@, text_msg(g.owner_id))),
        entries_of(game_msg(g)).contains(field("quiz_id"@, text_msg(g.quiz_id))),
        entries_of(game_msg(g)).contains(field("status"@, text_msg(g.status))),
        entries_of(game_msg(g)).contains(field("questions"@, questions_msg(g.questions))),
        entries_of(game_msg(g)).contains(field("current_question"@, Msg::Integer(Some(g.current_question)))),
        entries_of(game_msg(g)).contains(field("started_at"@, opt_time_msg(g.started_at))),
        entries_of(game_msg(g)).contains(field("updated_at"@, time_msg(g.updated_at))),
        entries_of(game_msg(g)).contains(field("finished_at"@, opt_time_msg(g.finished_at))),
        entries_of(game_msg(g)).contains(field("players"@, players_msg(g.players))),
{
    let es = entries_of(game_msg(g));
    assert(entry_keys(es) =~= seq![
        text_msg("id"@),
        text_msg("owner_id"@),
        text_msg("quiz_id"@),
        text_msg("status"@),
        text_msg("questions"@),
        text_msg("current_question"@),
        text_msg("started_at"@),
        text_msg("updated_at"@),
        text_msg("finished_at"@),
        text_msg("players"@),
    ]);
    assert(es[0] == field("id"@, text_msg(g.id)));
    assert(es[1] == field("owner_id"@, text_msg(g.owner_id)));
    assert(es[2] == field("quiz_id"@, text_msg(g.quiz_id)));
    assert(es[3] == field("status"@, text_msg(g.status)));
    assert(es[4] == field("questions"@, questions_msg(g.questions)));
    assert(es[5] == field("current_question"@, Msg::Integer(Some(g.current_question))));
    assert(es[6] == field("started_at"@, opt_time_msg(g.started_at)));
    assert(es[7] == field("updated_at"@, time_msg(g.updated_at)));
    assert(es[8] == field("finished_at"@, opt_time_msg(g.finished_at)));
    assert(es[9] == field("players"@, players_msg(g.players)));
}

/// The stored form of a question holds its four fields under their names,
/// each with the stored form of the field it names.
pub proof fn law_stored_question_names_each_field(q: QuestionView)
    ensures
        entry_keys(entries_of(question_msg(q))) == seq![
            text_msg("answers"@),
            text_msg("available_time"@),
            text_msg("correct_answer"@),
            text_msg("choices"@),
        ],
        entries_of(question_msg(q)).contains(field("answers"@, answers_msg(q.answers))),
        entries_of(question_msg(q)).contains(field("available_time"@, Msg::Integer(Some(q.available_time)))),
        entries_of(question_msg(q)).contains(field("correct_answer"@, Msg::Integer(Some(q.correct_answer)))),
        entries_of(question_msg(q)).contains(field("choices"@, choices_msg(q.choices))),
{
    let es = entries_of(question_msg(q));
    assert(entry_keys(es) =~= seq![
        text_msg("answers"@),
        text_msg("available_time"@),
        text_msg("correct_answer"@),
        text_msg("choices"@),
    ]);
    assert(es[0] == field("answers"@, answers_msg(q.answers)));
    assert(es[1] == field("available_time"@, Msg::Integer(Some(q.available_time))));
    assert(es[2] == field("correct_answer"@, Msg::Integer(Some(q.correct_answer))));
    assert(es[3] == field("choices"@, choices_msg(q.choices)));
}

/// The stored form of an answer holds its three fields under their names,
/// and that of a player its two.
pub proof fn law_stored_answer_and_player_name_each_field(a: AnswerView, p: PlayerView)
    ensures
        entry_keys(entries_of(answer_msg(a))) == seq![
            text_msg("player_id"@),
            text_msg("answer_index"@),
            text_msg("time_to_answer"@),
        ],
        entries_of(answer_msg(a)).contains(field("player_id"@, text_msg(a.player_id))),
        entries_of(answer_msg(a)).contains(field("answer_index"@, Msg::Integer(Some(a.answer_index)))),
        entries_of(answer_msg(a)).contains(field("time_to_answer"@, Msg::Integer(Some(a.time_to_answer)))),
        entry_keys(entries_of(player_msg(p))) == seq![text_msg("id"@), text_msg("name"@)],
        entries_of(player_msg(p)).contains(field("id"@, text_msg(p.id))),
        entries_of(player_msg(p)).contains(field("name"@, text_msg(p.name))),
{
    let es = entries_of(answer_msg(a));
    assert(entry_keys(es) =~= seq![text_msg("player_id"@), text_msg("answer_index"@), text_msg("time_to_answer"@)]);
    assert(es[0] == field("player_id"@, text_msg(a.player_id)));
    assert(es[1] == field("answer_index"@, Msg::Integer(Some(a.answer_index))));
    assert(es[2] == field("time_to_answer"@, Msg::Integer(Some(a.time_to_answer))));
    let ps = entries_of(player_msg(p));
    assert(entry_keys(ps) =~= seq![text_msg("id"@), text_msg("name"@)]);
    assert(ps[0] == field("id"@, text_msg(p.id)));
    assert(ps[1] == field("name"@, text_msg(p.name)));
}

/// Reading a question entry sets the field it names and nothing else.
#[verifier::rlimit(50)]
pub proof fn law_question_entries_set_named_fields(es: Seq<(Msg, Msg)>, v: Msg)
    ensures
        question_of(Msg::Entries(es)) matches Ok(q) ==> {
            &&& answers_of(v) matches Ok(x) ==> question_of(Msg::Entries(es.push(field("answers"@, v)))) == Ok::<
                QuestionView,
                CodecError,
            >(QuestionView { answers: x, ..q })
            &&& int_of(v) matches Ok(n) ==> question_of(Msg::Entries(es.push(field("available_time"@, v))))
                == Ok::<QuestionView, CodecError>(QuestionView { available_time: n, ..q })
            &&& int_of(v) matches Ok(n) ==> question_of(Msg::Entries(es.push(field("correct_answer"@, v))))
                == Ok::<QuestionView, CodecError>(QuestionView { correct_answer: n, ..q })
            &&& choices_of(v) matches Ok(x) ==> question_of(Msg::Entries(es.push(field("choices"@, v)))) == Ok::<
                QuestionView,
                CodecError,
            >(QuestionView { choices: x, ..q })
        },
{
    lemma_field_name_facts();
    lemma_fold_push_any(es, field("answers"@, v), empty_question(), question_step());
    lemma_fold_push_any(es, field("available_time"@, v), empty_question(), question_step());
    lemma_fold_push_any(es, field("correct_answer"@, v), empty_question(), question_step());
    lemma_fold_push_any(es, field("choices"@, v), empty_question(), question_step());
}

/// Reading an answer entry sets the field it names and nothing else; so does
/// reading a player entry.
#[verifier::rlimit(50)]
pub proof fn law_answer_and_player_entries_set_named_fields(es: Seq<(Msg, Msg)>, v: Msg)
    ensures
        answer_of(Msg::Entries(es)) matches Ok(a) ==> {
            &&& text_of(v) matches Ok(x) ==> answer_of(Msg::Entries(es.push(field("player_id"@, v)))) == Ok::<
                AnswerView,
                CodecError,
            >(AnswerView { player_id: x, ..a })
            &&& int_of(v) matches Ok(n) ==> answer_of(Msg::Entries(es.push(field("answer_index"@, v)))) == Ok::<
                AnswerView,
                CodecError,
            >(AnswerView { answer_index: n, ..a })
            &&& int_of(v) matches Ok(n) ==> answer_of(Msg::Entries(es.push(field("time_to_answer"@, v)))) == Ok::<
                AnswerView,
                CodecError,
            >(AnswerView { time_to_answer: n, ..a })
        },
        player_of(Msg::Entries(es)) matches Ok(p) ==> {
            &&& text_of(v) matches Ok(x) ==> player_of(Msg::Entries(es.push(field("id"@, v)))) == Ok::<
                PlayerView,
                CodecError,
            >(PlayerView { id: x, ..p })
            &&& text_of(v) matches Ok(x) ==> player_of(Msg::Entries(es.push(field("name"@, v)))) == Ok::<
                PlayerView,
                CodecError,
            >(PlayerView { name: x, ..p })
        },
{
    lemma_field_name_facts();
    lemma_fold_push_any(es, field("player_id"@, v), empty_answer(), answer_step());
    lemma_fold_push_any(es, field("answer_index"@, v), empty_answer(), answer_step());
    lemma_fold_push_any(es, field("time_to_answer"@, v), empty_answer(), answer_step());
    lemma_fold_push_any(es, field("id"@, v), empty_player(), player_step());
    lemma_fold_push_any(es, field("name"@, v), empty_player(), player_step());
}

/// Reading a game entry sets the field it names and nothing else.
#[verifier::rlimit(100)]
pub proof fn law_game_entries_set_named_fields(es: Seq<(Msg, Msg)>, v: Msg, updated: Timestamp)
    ensures
        game_of(Msg::Entries(es), updated) matches Ok(g) ==> {
            &&& text_of(v) matches Ok(x) ==> game_of(Msg::Entries(es.push(field("id"@, v))), updated) == Ok::<
                GameView,
                CodecError,
            >(GameView { id: x, ..g })
            &&& text_of(v) matches Ok(x) ==> game_of(Msg::Entries(es.push(field("owner_id"@, v))), updated)
                == Ok::<GameView, CodecError>(GameView { owner_id: x, ..g })
            &&& text_of(v) matches Ok(x) ==> game_of(Msg::Entries(es.push(field("quiz_id"@, v))), updated)
                == Ok::<GameView, CodecError>(GameView { quiz_id: x, ..g })
            &&& text_of(v) matches Ok(x) ==> game_of(Msg::Entries(es.push(field("status"@, v))), updated)
                == Ok::<GameView, CodecError>(GameView { status: x, ..g })
            &&& questions_of(v) matches Ok(x) ==> game_of(Msg::Entries(es.push(field("questions"@, v))), updated)
                == Ok::<GameView, CodecError>(GameView { questions: x, ..g })
            &&& int_of(v) matches Ok(n) ==> game_of(
                Msg::Entries(es.push(field("current_question"@, v))),
                updated,
            ) == Ok::<GameView, CodecError>(GameView { current_question: n, ..g })
            &&& opt_time_of(v) matches Ok(t) ==> game_of(Msg::Entries(es.push(field("started_at"@, v))), updated)
                == Ok::<GameView, CodecError>(GameView { started_at: t, ..g })
            &&& time_of(v) matches Ok(t) ==> game_of(Msg::Entries(es.push(field("updated_at"@, v))), updated)
                == Ok::<GameView, CodecError>(GameView { updated_at: t, ..g })
            &&& opt_time_of(v) matches Ok(t) ==> game_of(Msg::Entries(es.push(field("finished_at"@, v))), updated)
                == Ok::<GameView, CodecError>(GameView { finished_at: t, ..g })
            &&& players_of(v) matches Ok(x) ==> game_of(Msg::Entries(es.push(field("players"@, v))), updated)
                == Ok::<GameView, CodecError>(GameView { players: x, ..g })
        },
{
    lemma_field_name_facts();
    let d = empty_game(updated);
    lemma_fold_push_any(es, field("id"@, v), d, game_step());
    lemma_fold_push_any(es, field("owner_id"@, v), d, game_step());
    lemma_fold_push_any(es, field("quiz_id"@, v), d, game_step());
    lemma_fold_push_any(es, field("status"@, v), d, game_step());
    lemma_fold_push_any(es, field("questions"@, v), d, game_step());
    lemma_fold_push_any(es, field("current_question"@, v), d, game_step());
    lemma_fold_push_any(es, field("started_at"@, v), d, game_step());
    lemma_fold_push_any(es, field("updated_at"@, v), d, game_step());
    lemma_fold_push_any(es, field("finished_at"@, v), d, game_step());
    lemma_fold_push_any(es, field("players"@, v), d, game_step());
}

} // verus!
