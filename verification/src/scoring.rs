//! Scores and the podium of a game: every correct answer earns 100 points
//! plus one point per second left of the question's available time; players
//! are ranked by score, best first, and players with equal scores keep the
//! order in which they joined.
use crate::assoc::{entries_view, find_key, has_key, lemma_first_key_index_bounds, put, put_entry};
use crate::events::{Leaderboard, LeaderboardView};
use crate::player::{Player, PlayerView};
use crate::question::{AnswerView, Question, QuestionView};
use vstd::prelude::*;

verus! {

/// The players by id with their names; when two players share an id, the one
/// that comes later gives the name and the earlier one's place.
pub open spec fn roster(players: Seq<(Seq<char>, PlayerView)>) -> Seq<(Seq<char>, Seq<char>)>
    decreases players.len(),
{
    if players.len() == 0 {
        seq![]
    } else {
        put(roster(players.drop_last()), players.last().1.id, players.last().1.name)
    }
}

/// Whether answer `a` to question `q` scores for player `pid`.
pub open spec fn scores_for(q: QuestionView, a: AnswerView, pid: Seq<char>) -> bool {
    a.player_id == pid && a.answer_index == q.correct_answer
}

/// The points of a correct answer: 100 plus the unused seconds, if any.
pub open spec fn answer_points(q: QuestionView, a: AnswerView) -> int {
    100 + if q.available_time - a.time_to_answer > 0 {
        q.available_time - a.time_to_answer
    } else {
        0
    }
}

/// The points that player `pid` earns from the answers `answers` to question `q`.
pub open spec fn points_from(q: QuestionView, answers: Seq<(Seq<char>, AnswerView)>, pid: Seq<char>) -> int
    decreases answers.len(),
{
    if answers.len() == 0 {
        0
    } else {
        points_from(q, answers.drop_last(), pid) + if scores_for(q, answers.last().1, pid) {
            answer_points(q, answers.last().1)
        } else {
            0
        }
    }
}

/// The points that player `pid` earns over the questions `qs`.
pub open spec fn total_points(qs: Seq<QuestionView>, pid: Seq<char>) -> int
    decreases qs.len(),
{
    if qs.len() == 0 {
        0
    } else {
        total_points(qs.drop_last(), pid) + points_from(qs.last(), qs.last().answers, pid)
    }
}

/// The score of each roster entry, in roster order.
pub open spec fn roster_scores(
    players: Seq<(Seq<char>, PlayerView)>,
    qs: Seq<QuestionView>,
) -> Seq<int> {
    roster(players).map_values(|e: (Seq<char>, Seq<char>)| total_points(qs, e.0))
}

/// Entry `i` ranks before entry `j`: a higher score, or an equal score and
/// an earlier place.
pub open spec fn ranks_before(sc: Seq<int>, i: int, j: int) -> bool {
    sc[i] > sc[j] || (sc[i] == sc[j] && i < j)
}

/// Entry `i` is the best of the entries outside `ex`.
pub open spec fn is_top(sc: Seq<int>, i: int, ex: Set<int>) -> bool {
    &&& 0 <= i < sc.len()
    &&& !ex.contains(i)
    &&& forall|j: int| 0 <= j < sc.len() && !ex.contains(j) && j != i ==> ranks_before(sc, i, j)
}

pub open spec fn top(sc: Seq<int>, ex: Set<int>) -> int {
    choose|i: int| is_top(sc, i, ex)
}

/// The indices of the first three entries of the ranking.
pub open spec fn podium(sc: Seq<int>) -> Seq<int> {
    let i0 = top(sc, Set::empty());
    let i1 = top(sc, set![i0]);
    let i2 = top(sc, set![i0, i1]);
    seq![i0, i1, i2].take(if sc.len() < 3 { sc.len() as int } else { 3 })
}

pub open spec fn place_name(r: Seq<(Seq<char>, Seq<char>)>, p: Seq<int>, place: int) -> Seq<char> {
    if place < p.len() {
        r[p[place]].1
    } else {
        Seq::empty()
    }
}

/// The leaderboard: the names of the first three players of the ranking.
pub open spec fn leaderboard_of(
    players: Seq<(Seq<char>, PlayerView)>,
    qs: Seq<QuestionView>,
) -> LeaderboardView {
    let r = roster(players);
    let p = podium(roster_scores(players, qs));
    LeaderboardView { gold: place_name(r, p, 0), silver: place_name(r, p, 1), bronze: place_name(r, p, 2) }
}

/// Scoring stays within `i64`: every player's total, and every time
/// difference that is scored, fits.
pub open spec fn scoring_fits(players: Seq<(Seq<char>, PlayerView)>, qs: Seq<QuestionView>) -> bool {
    let r = roster(players);
    &&& forall|k: int| 0 <= k < r.len() ==> #[trigger] total_points(qs, r[k].0) <= i64::MAX
    &&& forall|qi: int, ai: int|
        0 <= qi < qs.len() && 0 <= ai < qs[qi].answers.len() && has_key(r, qs[qi].answers[ai].1.player_id)
            && qs[qi].answers[ai].1.answer_index == qs[qi].correct_answer
            ==> i64::MIN <= #[trigger] (qs[qi].available_time - qs[qi].answers[ai].1.time_to_answer) <= i64::MAX
}

pub proof fn lemma_points_from_monotone(
    q: QuestionView,
    answers: Seq<(Seq<char>, AnswerView)>,
    pid: Seq<char>,
    n: int,
)
    requires
        0 <= n <= answers.len(),
    ensures
        0 <= points_from(q, answers.take(n), pid) <= points_from(q, answers, pid),
    decreases answers.len() - n,
{
    if n < answers.len() {
        lemma_points_from_monotone(q, answers, pid, n + 1);
        assert(answers.take(n + 1).drop_last() =~= answers.take(n));
        assert(answers.take(n + 1).last() == answers[n]);
        lemma_points_from_nonneg(q, answers.take(n), pid);
        assert(points_from(q, answers.take(n + 1), pid) >= points_from(q, answers.take(n), pid));
    } else {
        assert(answers.take(n) =~= answers);
        lemma_points_from_nonneg(q, answers, pid);
    }
}

pub proof fn lemma_points_from_nonneg(q: QuestionView, answers: Seq<(Seq<char>, AnswerView)>, pid: Seq<char>)
    ensures
        0 <= points_from(q, answers, pid),
    decreases answers.len(),
{
    if answers.len() > 0 {
        lemma_points_from_nonneg(q, answers.drop_last(), pid);
    }
}

pub proof fn lemma_total_points_monotone(qs: Seq<QuestionView>, pid: Seq<char>, n: int)
    requires
        0 <= n <= qs.len(),
    ensures
        0 <= total_points(qs.take(n), pid) <= total_points(qs, pid),
    decreases qs.len() - n,
{
    if n < qs.len() {
        lemma_total_points_monotone(qs, pid, n + 1);
        assert(qs.take(n + 1).drop_last() =~= qs.take(n));
        assert(qs.take(n + 1).last() == qs[n]);
        lemma_points_from_nonneg(qs[n], qs[n].answers, pid);
        lemma_total_points_nonneg(qs.take(n), pid);
        assert(total_points(qs.take(n + 1), pid) == total_points(qs.take(n), pid) + points_from(
            qs[n],
            qs[n].answers,
            pid,
        ));
    } else {
        assert(qs.take(n) =~= qs);
        lemma_total_points_nonneg(qs, pid);
    }
}

pub proof fn lemma_total_points_nonneg(qs: Seq<QuestionView>, pid: Seq<char>)
    ensures
        0 <= total_points(qs, pid),
    decreases qs.len(),
{
    if qs.len() > 0 {
        lemma_total_points_nonneg(qs.drop_last(), pid);
        lemma_points_from_nonneg(qs.last(), qs.last().answers, pid);
    }
}

/// There is at most one best entry outside a set.
pub proof fn lemma_top_unique(sc: Seq<int>, i: int, j: int, ex: Set<int>)
    requires
        is_top(sc, i, ex),
        is_top(sc, j, ex),
    ensures
        i == j,
{
    if i != j {
        assert(ranks_before(sc, i, j));
        assert(ranks_before(sc, j, i));
    }
}

pub proof fn lemma_top_is(sc: Seq<int>, i: int, ex: Set<int>)
    requires
        is_top(sc, i, ex),
    ensures
        top(sc, ex) == i,
{
    lemma_top_unique(sc, top(sc, ex), i, ex);
}

/// The roster of a list of players: ids and names, each id once.
pub fn roster_of(players: &Vec<(String, Player)>) -> (r: Vec<(String, String)>)
    ensures
        entries_view(r@) == roster(entries_view(players@)),
{
    let ghost ps = entries_view(players@);
    let mut r: Vec<(String, String)> = Vec::new();
    let mut i: usize = 0;
    assert(ps.take(0) =~= Seq::<(Seq<char>, PlayerView)>::empty());
    assert(entries_view(r@) =~= Seq::<(Seq<char>, Seq<char>)>::empty());
    while i < players.len()
        invariant
            i <= players.len(),
            ps == entries_view(players@),
            entries_view(r@) == roster(ps.take(i as int)),
        decreases players.len() - i,
    {
        assert(ps.take(i as int + 1).drop_last() =~= ps.take(i as int));
        assert(ps.take(i as int + 1).last() == ps[i as int]);
        put_entry(&mut r, players[i].1.id.clone(), players[i].1.name.clone());
        i = i + 1;
    }
    assert(ps.take(i as int) =~= ps);
    r
}

/// The points player `pid` earns from question `q`.
fn question_points(q: &Question, pid: &String, Ghost(r): Ghost<Seq<(Seq<char>, Seq<char>)>>) -> (p: i64)
    requires
        has_key(r, pid@),
        points_from(q@, q@.answers, pid@) <= i64::MAX,
        forall|ai: int|
            0 <= ai < q@.answers.len() && has_key(r, q@.answers[ai].1.player_id)
                && q@.answers[ai].1.answer_index == q@.correct_answer
                ==> i64::MIN <= #[trigger] (q@.available_time - q@.answers[ai].1.time_to_answer) <= i64::MAX,
    ensures
        p == points_from(q@, q@.answers, pid@),
{
    let ghost qv = q@;
    let ghost ans = qv.answers;
    let mut acc: i64 = 0;
    let mut i: usize = 0;
    while i < q.answers.len()
        invariant
            i <= q.answers.len(),
            qv == q@,
            ans == qv.answers,
            has_key(r, pid@),
            points_from(qv, ans, pid@) <= i64::MAX,
            forall|ai: int|
                0 <= ai < ans.len() && has_key(r, ans[ai].1.player_id) && ans[ai].1.answer_index
                    == qv.correct_answer ==> i64::MIN <= #[trigger] (qv.available_time
                    - ans[ai].1.time_to_answer) <= i64::MAX,
            acc == points_from(qv, ans.take(i as int), pid@),
        decreases q.answers.len() - i,
    {
        let a = &q.answers[i].1;
        assert(ans.take(i as int + 1).drop_last() =~= ans.take(i as int));
        assert(ans.take(i as int + 1).last() == ans[i as int]);
        assert(ans[i as int].1 == a@);
        proof {
            lemma_points_from_monotone(qv, ans, pid@, i as int + 1);
        }
        if a.player_id == *pid && a.answer_index == q.correct_answer {
            assert(i64::MIN <= qv.available_time - ans[i as int].1.time_to_answer <= i64::MAX);
            let diff = q.available_time - a.time_to_answer;
            let bonus: i64 = if diff > 0 { diff } else { 0 };
            acc = acc + 100 + bonus;
        }
        i = i + 1;
    }
    assert(ans.take(i as int) =~= ans);
    acc
}

/// The points player `pid` earns over the questions `qs`.
fn player_points(qs: &Vec<Question>, pid: &String, Ghost(r): Ghost<Seq<(Seq<char>, Seq<char>)>>) -> (p: i64)
    requires
        has_key(r, pid@),
        scoring_fits_for(qs_view(qs@), r, pid@),
    ensures
        p == total_points(qs_view(qs@), pid@),
{
    let ghost qv = qs_view(qs@);
    let mut acc: i64 = 0;
    let mut i: usize = 0;
    while i < qs.len()
        invariant
            i <= qs.len(),
            qv == qs_view(qs@),
            has_key(r, pid@),
            scoring_fits_for(qv, r, pid@),
            acc == total_points(qv.take(i as int), pid@),
        decreases qs.len() - i,
    {
        assert(qv.take(i as int + 1).drop_last() =~= qv.take(i as int));
        assert(qv.take(i as int + 1).last() == qv[i as int]);
        assert(qv[i as int] == qs[i as int]@);
        proof {
            lemma_total_points_monotone(qv, pid@, i as int + 1);
            lemma_points_from_nonneg(qv[i as int], qv[i as int].answers, pid@);
            lemma_total_points_nonneg(qv.take(i as int), pid@);
        }
        assert forall|ai: int|
            0 <= ai < qv[i as int].answers.len() && has_key(r, qv[i as int].answers[ai].1.player_id)
                && qv[i as int].answers[ai].1.answer_index == qv[i as int].correct_answer
                implies i64::MIN <= #[trigger] (qv[i as int].available_time
                - qv[i as int].answers[ai].1.time_to_answer) <= i64::MAX by {
            assert(i64::MIN <= qv[i as int].available_time - qv[i as int].answers[ai].1.time_to_answer
                <= i64::MAX);
        }
        let p: i64 = question_points(&qs[i], pid, Ghost(r));
        acc = acc + p;
        i = i + 1;
    }
    assert(qv.take(i as int) =~= qv);
    acc
}

pub open spec fn qs_view(qs: Seq<Question>) -> Seq<QuestionView> {
    qs.map_values(|q: Question| q@)
}

/// What the scoring of one roster entry needs to stay within `i64`.
pub open spec fn scoring_fits_for(qs: Seq<QuestionView>, r: Seq<(Seq<char>, Seq<char>)>, pid: Seq<char>) -> bool {
    &&& total_points(qs, pid) <= i64::MAX
    &&& forall|qi: int, ai: int|
        0 <= qi < qs.len() && 0 <= ai < qs[qi].answers.len() && has_key(r, qs[qi].answers[ai].1.player_id)
            && qs[qi].answers[ai].1.answer_index == qs[qi].correct_answer
            ==> i64::MIN <= #[trigger] (qs[qi].available_time - qs[qi].answers[ai].1.time_to_answer) <= i64::MAX
}

pub open spec fn scores_view(sc: Seq<i64>) -> Seq<int> {
    sc.map_values(|x: i64| x as int)
}

pub open spec fn excluded(ex1: Option<usize>, ex2: Option<usize>) -> Set<int> {
    let a = match ex1 {
        Some(i) => set![i as int],
        None => Set::empty(),
    };
    match ex2 {
        Some(j) => a.insert(j as int),
        None => a,
    }
}

/// The best entry outside the excluded ones, if any entry is left.
fn best_entry(sc: &Vec<i64>, ex1: Option<usize>, ex2: Option<usize>) -> (r: Option<usize>)
    ensures
        match r {
            Some(i) => is_top(scores_view(sc@), i as int, excluded(ex1, ex2)),
            None => forall|j: int| 0 <= j < sc.len() ==> excluded(ex1, ex2).contains(j),
        },
{
    let ghost s = scores_view(sc@);
    let ghost ex = excluded(ex1, ex2);
    let mut best: Option<usize> = None;
    let mut i: usize = 0;
    while i < sc.len()
        invariant
            i <= sc.len(),
            s == scores_view(sc@),
            ex == excluded(ex1, ex2),
            match best {
                Some(b) => {
                    &&& b < i
                    &&& !ex.contains(b as int)
                    &&& forall|j: int| 0 <= j < i && !ex.contains(j) && j != b ==> ranks_before(s, b as int, j)
                },
                None => forall|j: int| 0 <= j < i ==> ex.contains(j),
            },
        decreases sc.len() - i,
    {
        let skip = match ex1 {
            Some(a) => a == i,
            None => false,
        } || match ex2 {
            Some(b) => b == i,
            None => false,
        };
        if !skip {
            match best {
                None => {
                    best = Some(i);
                },
                Some(b) => {
                    if sc[i] > sc[b] {
                        best = Some(i);
                    }
                },
            }
        }
        i = i + 1;
    }
    best
}

fn place_text(r: &Vec<(String, String)>, p: Option<usize>) -> (t: String)
    requires
        p matches Some(i) ==> i < r.len(),
    ensures
        t@ == match p {
            Some(i) => entries_view(r@)[i as int].1,
            None => Seq::empty(),
        },
{
    match p {
        Some(i) => r[i].1.clone(),
        None => String::new(),
    }
}

/// Ranks the players by their scores over the questions and names the first three.
pub fn compute_leaderboard(players: &Vec<(String, Player)>, qs: &Vec<Question>) -> (lb: Leaderboard)
    requires
        scoring_fits(entries_view(players@), qs_view(qs@)),
    ensures
        lb@ == leaderboard_of(entries_view(players@), qs_view(qs@)),
{
    let ghost ps = entries_view(players@);
    let ghost qv = qs_view(qs@);
    let r = roster_of(players);
    let ghost rv = entries_view(r@);
    let mut sc: Vec<i64> = Vec::new();
    let mut k: usize = 0;
    while k < r.len()
        invariant
            k <= r.len(),
            rv == entries_view(r@),
            rv == roster(ps),
            qv == qs_view(qs@),
            scoring_fits(ps, qv),
            sc.len() == k,
            forall|j: int| 0 <= j < k ==> sc@[j] as int == total_points(qv, rv[j].0),
        decreases r.len() - k,
    {
        assert(rv[k as int].0 == r[k as int].0@);
        assert(total_points(qv, rv[k as int].0) <= i64::MAX);
        assert(has_key(rv, rv[k as int].0));
        let p: i64 = player_points(qs, &r[k].0, Ghost(rv));
        sc.push(p);
        k = k + 1;
    }
    let ghost s = scores_view(sc@);
    assert(s =~= roster_scores(ps, qv));
    let i0 = best_entry(&sc, None, None);
    let i1 = best_entry(&sc, i0, None);
    let i2 = best_entry(&sc, i0, i1);
    proof {
        assert(s.len() == sc.len());
        assert(excluded(None, None) =~= Set::<int>::empty());
        if s.len() >= 1 {
            assert(i0 is Some) by {
                if i0 is None {
                    assert(excluded(None, None).contains(0));
                }
            }
            let a: int = i0.unwrap() as int;
            lemma_top_is(s, a, Set::empty());
            assert(excluded(i0, None) =~= set![a]);
            if s.len() >= 2 {
                assert(i1 is Some) by {
                    if i1 is None {
                        assert(excluded(i0, None).contains(if a == 0 { 1 } else { 0 }));
                    }
                }
                let b: int = i1.unwrap() as int;
                lemma_top_is(s, b, set![a]);
                assert(excluded(i0, i1) =~= set![a, b]);
                if s.len() >= 3 {
                    assert(i2 is Some) by {
                        if i2 is None {
                            let c: int = if a != 0 && b != 0 { 0 } else if a != 1 && b != 1 { 1 } else { 2 };
                            assert(excluded(i0, i1).contains(c));
                        }
                    }
                    let c: int = i2.unwrap() as int;
                    lemma_top_is(s, c, set![a, b]);
                } else {
                    assert(i2 is None) by {
                        if i2 is Some {
                            let c: int = i2.unwrap() as int;
                            assert(c == 0 || c == 1);
                        }
                    }
                }
            } else {
                assert(i1 is None) by {
                    if i1 is Some {
                        let c: int = i1.unwrap() as int;
                        assert(c == 0);
                    }
                }
                assert(i2 is None) by {
                    if i2 is Some {
                        let c: int = i2.unwrap() as int;
                        assert(c == 0);
                    }
                }
            }
        } else {
            assert(i0 is None);
            assert(i1 is None);
            assert(i2 is None);
        }
    }
    let gold = place_text(&r, i0);
    let silver = place_text(&r, i1);
    let bronze = place_text(&r, i2);
    Leaderboard { gold, silver, bronze }
}

/// Among the first `n` entries outside `ex`, one ranks before all others.
proof fn lemma_top_in_prefix(sc: Seq<int>, ex: Set<int>, n: int) -> (w: int)
    requires
        0 <= n <= sc.len(),
        exists|j: int| 0 <= j < n && !ex.contains(j),
    ensures
        0 <= w < n,
        !ex.contains(w),
        forall|j: int| 0 <= j < n && !ex.contains(j) && j != w ==> ranks_before(sc, w, j),
    decreases n,
{
    if exists|j: int| 0 <= j < n - 1 && !ex.contains(j) {
        let w0 = lemma_top_in_prefix(sc, ex, n - 1);
        if !ex.contains(n - 1) && sc[n - 1] > sc[w0] {
            n - 1
        } else {
            w0
        }
    } else {
        let j: int = choose|j: int| 0 <= j < n && !ex.contains(j);
        assert(j == n - 1);
        n - 1
    }
}

proof fn lemma_top_exists(sc: Seq<int>, ex: Set<int>, j: int)
    requires
        0 <= j < sc.len(),
        !ex.contains(j),
    ensures
        is_top(sc, top(sc, ex), ex),
{
    let w: int = lemma_top_in_prefix(sc, ex, sc.len() as int);
    assert(is_top(sc, w, ex));
}

/// The podium is the start of the ranking: its entries are distinct entries
/// of the list, each ranks before the ones after it, and each ranks before
/// every entry left off the podium.
pub proof fn law_podium_is_head_of_ranking(sc: Seq<int>)
    ensures
        podium(sc).len() == if sc.len() < 3 { sc.len() as int } else { 3 },
        forall|a: int| 0 <= a < podium(sc).len() ==> 0 <= #[trigger] podium(sc)[a] < sc.len(),
        forall|a: int, b: int|
            0 <= a < b < podium(sc).len() ==> ranks_before(sc, #[trigger] podium(sc)[a], #[trigger] podium(sc)[b]),
        forall|a: int, j: int|
            0 <= a < podium(sc).len() && 0 <= j < sc.len() && !podium(sc).contains(j) ==> #[trigger] ranks_before(
                sc,
                podium(sc)[a],
                j,
            ),
{
    let p = podium(sc);
    let i0 = top(sc, Set::empty());
    let i1 = top(sc, set![i0]);
    let i2 = top(sc, set![i0, i1]);
    if sc.len() >= 1 {
        lemma_top_exists(sc, Set::empty(), 0);
        assert(p[0] == i0);
    }
    if sc.len() >= 2 {
        lemma_top_exists(sc, set![i0], if i0 == 0 { 1 } else { 0 });
        assert(p[1] == i1);
        assert(ranks_before(sc, i0, i1));
    }
    if sc.len() >= 3 {
        let c: int = if i0 != 0 && i1 != 0 { 0 } else if i0 != 1 && i1 != 1 { 1 } else { 2 };
        lemma_top_exists(sc, set![i0, i1], c);
        assert(p[2] == i2);
        assert(ranks_before(sc, i0, i2));
        assert(ranks_before(sc, i1, i2));
    }
    assert forall|a: int, j: int|
        0 <= a < p.len() && 0 <= j < sc.len() && !p.contains(j) implies #[trigger] ranks_before(sc, p[a], j) by {
        assert(p.contains(p[0]));
        assert(j != i0);
        if a >= 1 {
            assert(p.contains(p[1]));
            assert(j != i1);
            assert(!set![i0].contains(j));
        }
        if a >= 2 {
            assert(p.contains(p[2]));
            assert(j != i2);
            assert(!set![i0, i1].contains(j));
        }
        assert(!Set::<int>::empty().contains(j));
    }
}

/// The gold medal goes to a player with the best score.
pub proof fn law_gold_has_best_score(players: Seq<(Seq<char>, PlayerView)>, qs: Seq<QuestionView>)
    requires
        roster(players).len() > 0,
    ensures
        ({
            let r = roster(players);
            let sc = roster_scores(players, qs);
            let g: int = podium(sc)[0];
            &&& 0 <= g < r.len()
            &&& leaderboard_of(players, qs).gold == r[g].1
            &&& forall|k: int| 0 <= k < r.len() ==> total_points(qs, r[g].0) >= total_points(qs, r[k].0)
        }),
{
    let r = roster(players);
    let sc = roster_scores(players, qs);
    law_podium_is_head_of_ranking(sc);
    let g: int = podium(sc)[0];
    assert forall|k: int| 0 <= k < r.len() implies total_points(qs, r[g].0) >= total_points(qs, r[k].0) by {
        assert(sc[g] == total_points(qs, r[g].0));
        assert(sc[k] == total_points(qs, r[k].0));
        if k != g {
            if podium(sc).contains(k) {
                let a: int = choose|a: int| 0 <= a < podium(sc).len() && podium(sc)[a] == k;
                assert(ranks_before(sc, podium(sc)[0], podium(sc)[a]));
            } else {
                assert(ranks_before(sc, podium(sc)[0], k));
            }
        }
    }
}

/// The medals follow the ranking: gold names the player who ranks first,
/// silver the first of the others and bronze the first of the rest (a
/// higher total first, and on equal totals the one who joined first); a
/// medal that no player takes holds the empty name.
pub proof fn law_medals_follow_ranking(players: Seq<(Seq<char>, PlayerView)>, qs: Seq<QuestionView>)
    ensures
        ({
            let r = roster(players);
            let sc = roster_scores(players, qs);
            let lb = leaderboard_of(players, qs);
            &&& r.len() == 0 ==> lb.gold == Seq::<char>::empty()
            &&& r.len() < 2 ==> lb.silver == Seq::<char>::empty()
            &&& r.len() < 3 ==> lb.bronze == Seq::<char>::empty()
            &&& r.len() >= 1 ==> exists|i0: int| #[trigger] is_top(sc, i0, Set::empty()) && lb.gold == r[i0].1
            &&& r.len() >= 2 ==> exists|i0: int, i1: int|
                #[trigger] is_top(sc, i0, Set::empty()) && #[trigger] is_top(sc, i1, set![i0]) && lb.silver
                    == r[i1].1
            &&& r.len() >= 3 ==> exists|i0: int, i1: int, i2: int|
                #[trigger] is_top(sc, i0, Set::empty()) && #[trigger] is_top(sc, i1, set![i0]) && #[trigger] is_top(
                    sc,
                    i2,
                    set![i0, i1],
                ) && lb.bronze == r[i2].1
        }),
{
    let r = roster(players);
    let sc = roster_scores(players, qs);
    let i0 = top(sc, Set::empty());
    let i1 = top(sc, set![i0]);
    let i2 = top(sc, set![i0, i1]);
    if r.len() >= 1 {
        lemma_top_exists(sc, Set::empty(), 0);
    }
    if r.len() >= 2 {
        lemma_top_exists(sc, set![i0], if i0 == 0 { 1 } else { 0 });
    }
    if r.len() >= 3 {
        let c: int = if i0 != 0 && i1 != 0 { 0 } else if i0 != 1 && i1 != 1 { 1 } else { 2 };
        lemma_top_exists(sc, set![i0, i1], c);
    }
}

/// A player's total over two runs of questions is the sum of the totals
/// over each.
pub proof fn law_points_add_up(a: Seq<QuestionView>, b: Seq<QuestionView>, pid: Seq<char>)
    ensures
        total_points(a + b, pid) == total_points(a, pid) + total_points(b, pid),
    decreases b.len(),
{
    if b.len() == 0 {
        assert(a + b =~= a);
    } else {
        law_points_add_up(a, b.drop_last(), pid);
        assert((a + b).drop_last() =~= a + b.drop_last());
        assert((a + b).last() == b.last());
    }
}

/// A question that holds one answer is worth, to the player who gave it,
/// 100 points plus the seconds left of its available time when the answer
/// is the correct choice, and nothing when it is not; to anyone else it is
/// worth nothing.
pub proof fn law_one_answer_scores(
    qs: Seq<QuestionView>,
    q: QuestionView,
    key: Seq<char>,
    a: AnswerView,
    pid: Seq<char>,
)
    requires
        q.answers == seq![(key, a)],
    ensures
        total_points(qs.push(q), pid) == total_points(qs, pid) + if a.player_id == pid && a.answer_index
            == q.correct_answer {
            100 + if q.available_time > a.time_to_answer {
                q.available_time - a.time_to_answer
            } else {
                0
            }
        } else {
            0
        },
{
    assert(qs.push(q).drop_last() =~= qs);
    assert(qs.push(q).last() == q);
    assert(q.answers.drop_last() =~= Seq::<(Seq<char>, AnswerView)>::empty());
    assert(q.answers.last() == (key, a));
    assert(points_from(q, q.answers.drop_last(), pid) == 0);
    assert(points_from(q, q.answers, pid) == if scores_for(q, a, pid) {
        answer_points(q, a)
    } else {
        0
    });
}

/// Whether player `pid`'s total over `qs` fits in `i64`.
fn total_fits(qs: &Vec<Question>, pid: &String) -> (r: bool)
    ensures
        r == (total_points(qs_view(qs@), pid@) <= i64::MAX),
{
    let ghost qv = qs_view(qs@);
    let mut acc: i128 = 0;
    let mut i: usize = 0;
    while i < qs.len()
        invariant
            i <= qs.len(),
            qv == qs_view(qs@),
            0 <= acc <= i64::MAX,
            acc == total_points(qv.take(i as int), pid@),
        decreases qs.len() - i,
    {
        let q = &qs[i];
        let ghost ans = q@.answers;
        assert(qv[i as int] == q@);
        let mut j: usize = 0;
        let ghost base = acc as int;
        while j < q.answers.len()
            invariant
                i < qs.len(),
                q == &qs[i as int],
                qv == qs_view(qs@),
                qv[i as int] == q@,
                ans == q@.answers,
                j <= q.answers.len(),
                base == total_points(qv.take(i as int), pid@),
                0 <= acc <= i64::MAX,
                acc == base + points_from(q@, ans.take(j as int), pid@),
            decreases q.answers.len() - j,
        {
            let a = &q.answers[j].1;
            assert(ans.take(j as int + 1).drop_last() =~= ans.take(j as int));
            assert(ans.take(j as int + 1).last() == ans[j as int]);
            assert(ans[j as int].1 == a@);
            if a.player_id == *pid && a.answer_index == q.correct_answer {
                let diff: i128 = q.available_time as i128 - a.time_to_answer as i128;
                let bonus: i128 = if diff > 0 { diff } else { 0 };
                acc = acc + 100 + bonus;
                if acc > i64::MAX as i128 {
                    proof {
                        lemma_points_from_monotone(q@, ans, pid@, j as int + 1);
                        lemma_total_points_monotone(qv, pid@, i as int + 1);
                        assert(qv.take(i as int + 1).drop_last() =~= qv.take(i as int));
                        assert(qv.take(i as int + 1).last() == qv[i as int]);
                    }
                    return false;
                }
            }
            j = j + 1;
        }
        assert(ans.take(j as int) =~= ans);
        assert(qv.take(i as int + 1).drop_last() =~= qv.take(i as int));
        assert(qv.take(i as int + 1).last() == qv[i as int]);
        i = i + 1;
    }
    assert(qv.take(i as int) =~= qv);
    true
}

/// Whether scoring the game stays within `i64`.
pub fn scoring_fits_check(players: &Vec<(String, Player)>, qs: &Vec<Question>) -> (r: bool)
    ensures
        r == scoring_fits(entries_view(players@), qs_view(qs@)),
{
    let ghost ps = entries_view(players@);
    let ghost qv = qs_view(qs@);
    let r = roster_of(players);
    let ghost rv = entries_view(r@);
    let mut i: usize = 0;
    while i < qs.len()
        invariant
            i <= qs.len(),
            qv == qs_view(qs@),
            rv == entries_view(r@),
            rv == roster(ps),
            ps == entries_view(players@),
            forall|qi: int, ai: int|
                0 <= qi < i && 0 <= ai < qv[qi].answers.len() && has_key(rv, qv[qi].answers[ai].1.player_id)
                    && qv[qi].answers[ai].1.answer_index == qv[qi].correct_answer ==> i64::MIN
                    <= #[trigger] (qv[qi].available_time - qv[qi].answers[ai].1.time_to_answer) <= i64::MAX,
        decreases qs.len() - i,
    {
        let q = &qs[i];
        assert(qv[i as int] == q@);
        let mut j: usize = 0;
        while j < q.answers.len()
            invariant
                i < qs.len(),
                q == &qs[i as int],
                qv == qs_view(qs@),
                qv[i as int] == q@,
                rv == entries_view(r@),
                rv == roster(ps),
                ps == entries_view(players@),
                j <= q.answers.len(),
                forall|qi: int, ai: int|
                    0 <= qi < i && 0 <= ai < qv[qi].answers.len() && has_key(rv, qv[qi].answers[ai].1.player_id)
                        && qv[qi].answers[ai].1.answer_index == qv[qi].correct_answer ==> i64::MIN
                        <= #[trigger] (qv[qi].available_time - qv[qi].answers[ai].1.time_to_answer) <= i64::MAX,
                forall|ai: int|
                    0 <= ai < j && has_key(rv, qv[i as int].answers[ai].1.player_id)
                        && qv[i as int].answers[ai].1.answer_index == qv[i as int].correct_answer ==> i64::MIN
                        <= #[trigger] (qv[i as int].available_time - qv[i as int].answers[ai].1.time_to_answer)
                        <= i64::MAX,
            decreases q.answers.len() - j,
        {
            let a = &q.answers[j].1;
            assert(qv[i as int].answers[j as int].1 == a@);
            if a.answer_index == q.correct_answer {
                let known = find_key(&r, &a.player_id);
                proof {
                    lemma_first_key_index_bounds(rv, a.player_id@);
                }
                if known.is_some() {
                    let diff: i128 = q.available_time as i128 - a.time_to_answer as i128;
                    if diff < i64::MIN as i128 || diff > i64::MAX as i128 {
                        assert(has_key(rv, qv[i as int].answers[j as int].1.player_id));
                        assert(!(i64::MIN <= #[trigger] (qv[i as int].available_time
                            - qv[i as int].answers[j as int].1.time_to_answer) <= i64::MAX));
                        return false;
                    }
                }
            }
            j = j + 1;
        }
        i = i + 1;
    }
    let mut k: usize = 0;
    while k < r.len()
        invariant
            k <= r.len(),
            qv == qs_view(qs@),
            rv == entries_view(r@),
            rv == roster(ps),
            ps == entries_view(players@),
            forall|m: int| 0 <= m < k ==> #[trigger] total_points(qv, rv[m].0) <= i64::MAX,
        decreases r.len() - k,
    {
        assert(rv[k as int].0 == r@[k as int].0@);
        if !total_fits(qs, &r[k].0) {
            assert(rv.len() == r@.len());
            assert(0 <= k < roster(ps).len());
            assert(!(total_points(qv, roster(ps)[k as int].0) <= i64::MAX));
            assert(!scoring_fits(ps, qv));
            return false;
        }
        k = k + 1;
    }
    true
}

} // verus!
