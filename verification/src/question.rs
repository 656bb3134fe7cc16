use crate::assoc::{entries_view, has_key, law_put_keeps_others, put, put_entry};
use vstd::prelude::*;

verus! {

/// What a player answered to a question.
#[derive(Clone, Debug)]
pub struct Answer {
    pub player_id: String,
    pub answer_index: i64,
    pub time_to_answer: i64,
}

pub struct AnswerView {
    pub player_id: Seq<char>,
    pub answer_index: i64,
    pub time_to_answer: i64,
}

impl View for Answer {
    type V = AnswerView;

    open spec fn view(&self) -> AnswerView {
        AnswerView {
            player_id: self.player_id@,
            answer_index: self.answer_index,
            time_to_answer: self.time_to_answer,
        }
    }
}

/// A question of a quiz, with the answers given so far keyed by player id.
#[derive(Clone, Debug)]
pub struct Question {
    pub answers: Vec<(String, Answer)>,
    pub available_time: i64,
    pub correct_answer: i64,
    pub choices: Vec<String>,
}

pub struct QuestionView {
    pub answers: Seq<(Seq<char>, AnswerView)>,
    pub available_time: i64,
    pub correct_answer: i64,
    pub choices: Seq<Seq<char>>,
}

pub open spec fn texts_view(s: Seq<String>) -> Seq<Seq<char>> {
    s.map_values(|t: String| t@)
}

impl View for Question {
    type V = QuestionView;

    open spec fn view(&self) -> QuestionView {
        QuestionView {
            answers: entries_view(self.answers@),
            available_time: self.available_time,
            correct_answer: self.correct_answer,
            choices: texts_view(self.choices@),
        }
    }
}

/// The answer record that registering `(player_id, answer_index, time)` stores.
pub open spec fn answer_record(player_id: Seq<char>, answer_index: i64, time_to_answer: i64) -> AnswerView {
    AnswerView { player_id, answer_index, time_to_answer }
}

/// A question after registering an answer: the player's previous answer, if
/// any, is replaced.
pub open spec fn question_with_answer(
    q: QuestionView,
    player_id: Seq<char>,
    answer_index: i64,
    time_to_answer: i64,
) -> QuestionView {
    QuestionView {
        answers: put(q.answers, player_id, answer_record(player_id, answer_index, time_to_answer)),
        ..q
    }
}

/// Registering an answer records, under the player's id, that player's
/// choice and time, keeps every other player's answer, and leaves the rest
/// of the question as it was.
pub proof fn law_registered_answer_is_recorded(q: QuestionView, player_id: Seq<char>, answer_index: i64, time_to_answer: i64)
    ensures
        ({
            let r = question_with_answer(q, player_id, answer_index, time_to_answer);
            &&& r.answers.contains(
                (player_id, AnswerView { player_id, answer_index, time_to_answer }),
            )
            &&& forall|i: int|
                0 <= i < q.answers.len() && q.answers[i].0 != player_id ==> r.answers.contains(#[trigger] q.answers[i])
            &&& r.answers.len() == if has_key(q.answers, player_id) { q.answers.len() } else { q.answers.len() + 1 }
            &&& r.available_time == q.available_time
            &&& r.correct_answer == q.correct_answer
            &&& r.choices == q.choices
        }),
{
    law_put_keeps_others(q.answers, player_id, answer_record(player_id, answer_index, time_to_answer));
}

impl Question {
    pub fn register_answer(&mut self, player_id: String, answer_index: i64, time_to_answer: i64)
        ensures
            final(self)@ == question_with_answer(old(self)@, player_id@, answer_index, time_to_answer),
    {
        let key = player_id.clone();
        put_entry(&mut self.answers, key, Answer { player_id, answer_index, time_to_answer });
    }
}

} // verus!
