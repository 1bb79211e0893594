use vstd::prelude::*;

use crate::game::{fits_i32, match_winner, total_a, total_b, totals_fit, Match, MatchView};
use std::collections::HashMap;
use vstd::std_specs::iter::IteratorSpec;

verus! {

broadcast use vstd::std_specs::hash::group_hash_axioms;

/// A score, or 0 for an id without one.
pub open spec fn score_of(m: Map<u64, i32>, id: u64) -> int {
    if m.contains_key(id) {
        m[id] as int
    } else {
        0
    }
}

/// A count, or 0 for an id without one.
pub open spec fn count_of(m: Map<u64, u32>, id: u64) -> int {
    if m.contains_key(id) {
        m[id] as int
    } else {
        0
    }
}

/// `m` with `d` added to the score of `id`.
pub open spec fn add_score(m: Map<u64, i32>, id: u64, d: int) -> Map<u64, i32> {
    m.insert(id, (score_of(m, id) + d) as i32)
}

/// `m` with the count of `id` raised by one.
pub open spec fn bump_count(m: Map<u64, u32>, id: u64) -> Map<u64, u32> {
    m.insert(id, (count_of(m, id) + 1) as u32)
}

/// What a scoreboard holds: cumulative score, wins, losses and draws per
/// agent id.
#[verifier::ext_equal]
pub struct ScoreBoardView {
    pub scores: Map<u64, i32>,
    pub wins: Map<u64, u32>,
    pub losses: Map<u64, u32>,
    pub draws: Map<u64, u32>,
}

/// The empty scoreboard.
pub open spec fn empty_board() -> ScoreBoardView {
    ScoreBoardView {
        scores: Map::empty(),
        wins: Map::empty(),
        losses: Map::empty(),
        draws: Map::empty(),
    }
}

/// The loser of a match that `winner` won.
pub open spec fn loser_of(m: MatchView, winner: u64) -> u64 {
    if winner == m.agent_a.id {
        m.agent_b.id
    } else {
        m.agent_a.id
    }
}

/// The scoreboard after recording match `m`: an unfinished match changes
/// nothing; otherwise both totals are added to the agents' scores, and
/// the winner gains a win and the loser a loss, or both agents gain a draw.
pub open spec fn recorded(sb: ScoreBoardView, m: MatchView) -> ScoreBoardView {
    if !m.finished {
        sb
    } else {
        let s1 = add_score(sb.scores, m.agent_a.id, total_a(m.results));
        let s2 = add_score(s1, m.agent_b.id, total_b(m.results));
        match match_winner(m) {
            Some(w) => ScoreBoardView {
                scores: s2,
                wins: bump_count(sb.wins, w),
                losses: bump_count(sb.losses, loser_of(m, w)),
                draws: sb.draws,
            },
            None => ScoreBoardView {
                scores: s2,
                wins: sb.wins,
                losses: sb.losses,
                draws: bump_count(bump_count(sb.draws, m.agent_a.id), m.agent_b.id),
            },
        }
    }
}

/// Recording match `m` into `sb` overflows no total, score or count.
pub open spec fn record_fits(sb: ScoreBoardView, m: MatchView) -> bool {
    m.finished ==> {
        let s1 = add_score(sb.scores, m.agent_a.id, total_a(m.results));
        &&& totals_fit(m.results)
        &&& fits_i32(score_of(sb.scores, m.agent_a.id) + total_a(m.results))
        &&& fits_i32(score_of(s1, m.agent_b.id) + total_b(m.results))
        &&& match match_winner(m) {
            Some(w) => {
                &&& count_of(sb.wins, w) < u32::MAX
                &&& count_of(sb.losses, loser_of(m, w)) < u32::MAX
            },
            None => {
                &&& count_of(sb.draws, m.agent_a.id) < u32::MAX
                &&& count_of(bump_count(sb.draws, m.agent_a.id), m.agent_b.id) < u32::MAX
            },
        }
    }
}

/// The entries of `board` are ordered by score, highest first.
pub open spec fn sorted_by_score(board: Seq<(u64, i32)>) -> bool {
    forall|i: int, j: int| 0 <= i <= j < board.len() ==> board[i].1 >= board[j].1
}

/// No id occurs twice in `board`.
pub open spec fn distinct_ids(board: Seq<(u64, i32)>) -> bool {
    forall|i: int, j: int| 0 <= i < j < board.len() ==> board[i].0 != board[j].0
}

/// `board` lists exactly the entries of `scores`, each once, highest
/// score first.
pub open spec fn is_leaderboard(board: Seq<(u64, i32)>, scores: Map<u64, i32>) -> bool {
    &&& board.len() == scores.dom().len()
    &&& forall|j: int|
        0 <= j < board.len() ==> scores.contains_key(#[trigger] board[j].0) && scores[board[j].0]
            == board[j].1
    &&& forall|id: u64| #[trigger] scores.contains_key(id) ==> board.contains((id, scores[id]))
    &&& distinct_ids(board)
    &&& sorted_by_score(board)
}

/// Tracks scores across multiple matches.
#[derive(Debug)]
pub struct ScoreBoard {
    scores: HashMap<u64, i32>,
    wins: HashMap<u64, u32>,
    losses: HashMap<u64, u32>,
    draws: HashMap<u64, u32>,
}

impl View for ScoreBoard {
    type V = ScoreBoardView;

    closed spec fn view(&self) -> ScoreBoardView {
        ScoreBoardView {
            scores: self.scores@,
            wins: self.wins@,
            losses: self.losses@,
            draws: self.draws@,
        }
    }
}

fn add_to_score(m: &mut HashMap<u64, i32>, id: u64, d: i32)
    requires
        fits_i32(score_of(old(m)@, id) + d),
    ensures
        final(m)@ == add_score(old(m)@, id, d as int),
{
    let cur: i32 = match m.get(&id) {
        Some(v) => *v,
        None => 0,
    };
    m.insert(id, cur + d);
}

fn add_one(m: &mut HashMap<u64, u32>, id: u64)
    requires
        count_of(old(m)@, id) < u32::MAX,
    ensures
        final(m)@ == bump_count(old(m)@, id),
{
    let cur: u32 = match m.get(&id) {
        Some(v) => *v,
        None => 0,
    };
    m.insert(id, cur + 1);
}

/// Order `v` by score, highest first, keeping every entry.
fn sort_by_score(v: &Vec<(u64, i32)>) -> (out: Vec<(u64, i32)>)
    requires
        distinct_ids(v@),
    ensures
        out@.len() == v@.len(),
        forall|j: int| 0 <= j < out@.len() ==> v@.contains(#[trigger] out@[j]),
        forall|j: int| 0 <= j < v@.len() ==> out@.contains(#[trigger] v@[j]),
        distinct_ids(out@),
        sorted_by_score(out@),
{
    let mut out: Vec<(u64, i32)> = Vec::new();
    let mut i: usize = 0;
    while i < v.len()
        invariant
            0 <= i <= v@.len(),
            distinct_ids(v@),
            out@.len() == i,
            forall|j: int| 0 <= j < out@.len() ==> v@.take(i as int).contains(#[trigger] out@[j]),
            forall|t: int| 0 <= t < i ==> out@.contains(#[trigger] v@[t]),
            distinct_ids(out@),
            sorted_by_score(out@),
        decreases v@.len() - i,
    {
        let x = v[i];
        let mut p: usize = 0;
        while p < out.len() && out[p].1 >= x.1
            invariant
                0 <= p <= out@.len(),
                forall|q: int| 0 <= q < p ==> out@[q].1 >= x.1,
            decreases out@.len() - p,
        {
            p += 1;
        }
        let ghost before = out@;
        proof {
            assert forall|j: int| 0 <= j < before.len() implies #[trigger] before[j].0 != x.0 by {
                let t = choose|t: int| 0 <= t < i && v@.take(i as int)[t] == before[j];
                assert(v@[t] == before[j]);
            }
        }
        out.insert(p, x);
        proof {
            before.insert_ensures(p as int, x);
            assert forall|j: int| 0 <= j < out@.len() implies v@.take(i + 1).contains(
                #[trigger] out@[j],
            ) by {
                if j < p {
                    assert(v@.take(i as int).contains(before[j]));
                    let t = choose|t: int| 0 <= t < i && v@.take(i as int)[t] == before[j];
                    assert(v@.take(i + 1)[t] == before[j]);
                } else if j == p {
                    assert(v@.take(i + 1)[i as int] == x);
                } else {
                    assert(v@.take(i as int).contains(before[j - 1]));
                    let t = choose|t: int| 0 <= t < i && v@.take(i as int)[t] == before[j - 1];
                    assert(v@.take(i + 1)[t] == before[j - 1]);
                }
            }
            assert forall|t: int| 0 <= t < i + 1 implies out@.contains(#[trigger] v@[t]) by {
                if t == i {
                    assert(out@[p as int] == x);
                } else {
                    assert(before.contains(v@[t]));
                    let q = choose|q: int| 0 <= q < before.len() && before[q] == v@[t];
                    if q < p {
                        assert(out@[q] == v@[t]);
                    } else {
                        assert(out@[q + 1] == v@[t]);
                    }
                }
            }
            assert forall|a: int, b: int| 0 <= a < b < out@.len() implies out@[a].0 != out@[b].0 by {
                if b < p {
                } else if b == p {
                } else if a < p {
                } else if a == p {
                    assert(out@[b] == before[b - 1]);
                } else {
                }
            }
            assert forall|a: int, b: int| 0 <= a <= b < out@.len() implies out@[a].1 >= out@[b].1 by {
                if b < p {
                } else if b == p {
                    if a < p {
                    }
                } else if a < p {
                    assert(out@[b] == before[b - 1]);
                    assert(before[a].1 >= before[b - 1].1);
                } else if a == p {
                    assert(out@[b] == before[b - 1]);
                    assert(before[p as int].1 < x.1);
                    assert(before[p as int].1 >= before[b - 1].1);
                } else {
                }
            }
        }
        i += 1;
    }
    proof {
        assert(v@.take(v@.len() as int) =~= v@);
    }
    out
}

impl ScoreBoard {
    pub fn new() -> (sb: Self)
        ensures
            sb@ == empty_board(),
    {
        ScoreBoard {
            scores: HashMap::new(),
            wins: HashMap::new(),
            losses: HashMap::new(),
            draws: HashMap::new(),
        }
    }

    /// Record a finished match; an unfinished one is ignored.
    pub fn record(&mut self, m: &Match)
        requires
            record_fits(old(self)@, m@),
        ensures
            final(self)@ == recorded(old(self)@, m@),
    {
        if !m.finished {
            return;
        }
        let (a_total, b_total) = m.total_points();
        add_to_score(&mut self.scores, m.agent_a.id, a_total);
        add_to_score(&mut self.scores, m.agent_b.id, b_total);
        match m.winner() {
            Some(winner_id) => {
                add_one(&mut self.wins, winner_id);
                let loser_id = if winner_id == m.agent_a.id {
                    m.agent_b.id
                } else {
                    m.agent_a.id
                };
                add_one(&mut self.losses, loser_id);
            },
            None => {
                add_one(&mut self.draws, m.agent_a.id);
                add_one(&mut self.draws, m.agent_b.id);
            },
        }
    }

    pub fn score(&self, id: u64) -> (s: i32)
        ensures
            s == score_of(self@.scores, id),
    {
        match self.scores.get(&id) {
            Some(v) => *v,
            None => 0,
        }
    }

    pub fn wins(&self, id: u64) -> (n: u32)
        ensures
            n == count_of(self@.wins, id),
    {
        match self.wins.get(&id) {
            Some(v) => *v,
            None => 0,
        }
    }

    pub fn losses(&self, id: u64) -> (n: u32)
        ensures
            n == count_of(self@.losses, id),
    {
        match self.losses.get(&id) {
            Some(v) => *v,
            None => 0,
        }
    }

    pub fn draws(&self, id: u64) -> (n: u32)
        ensures
            n == count_of(self@.draws, id),
    {
        match self.draws.get(&id) {
            Some(v) => *v,
            None => 0,
        }
    }

    /// Every agent with a score, with its score, highest score first; the
    /// order among equal scores is not fixed.
    pub fn leaderboard(&self) -> (board: Vec<(u64, i32)>)
        ensures
            is_leaderboard(board@, self@.scores),
    {
        let mut entries: Vec<(u64, i32)> = Vec::new();
        for kv in it: self.scores.iter()
            invariant
                entries@.len() == it.index(),
                forall|j: int|
                    0 <= j < it.index() ==> #[trigger] entries@[j] == (*it.seq()[j].0, *it.seq()[j].1),
        {
            let (id, s) = kv;
            entries.push((*id, *s));
        }
        let ghost m = self.scores@;
        let ghost r = vstd::std_specs::hash::spec_hash_map_iter(&self.scores).remaining();
        assert(entries@.len() == r.len());
        assert(forall|j: int| 0 <= j < r.len() ==> entries@[j] == (*r[j].0, *r[j].1));
        assert(r.no_duplicates());
        proof {
            assert forall|j: int| 0 <= j < entries@.len() implies m.contains_key(
                #[trigger] entries@[j].0,
            ) && m[entries@[j].0] == entries@[j].1 by {
                assert(m.contains_key(*r[j].0));
            }
            assert forall|a: int, b: int| 0 <= a < b < entries@.len() implies entries@[a].0
                != entries@[b].0 by {
                assert(m.contains_key(*r[a].0));
                assert(m.contains_key(*r[b].0));
                if entries@[a].0 == entries@[b].0 {
                    assert(r[a] == r[b]);
                }
            }
            assert forall|id: u64| #[trigger] m.contains_key(id) implies entries@.contains(
                (id, m[id]),
            ) by {
                assert(r.contains((&id, &m[id])));
                let j = choose|j: int| 0 <= j < r.len() && r[j] == (&id, &m[id]);
                assert(entries@[j] == (id, m[id]));
            }
        }
        let board = sort_by_score(&entries);
        proof {
            assert forall|id: u64| #[trigger] m.contains_key(id) implies board@.contains(
                (id, m[id]),
            ) by {
                assert(entries@.contains((id, m[id])));
                let j = choose|j: int| 0 <= j < entries@.len() && entries@[j] == (id, m[id]);
                assert(board@.contains(entries@[j]));
            }
            assert forall|j: int| 0 <= j < board@.len() implies m.contains_key(
                #[trigger] board@[j].0,
            ) && m[board@[j].0] == board@[j].1 by {
                assert(entries@.contains(board@[j]));
                let t = choose|t: int| 0 <= t < entries@.len() && entries@[t] == board@[j];
                assert(m.contains_key(entries@[t].0));
            }
        }
        board
    }
}

/// Recording a match touches only its two agents: every other id keeps its
/// score, wins, losses and draws.
pub proof fn lemma_record_frame(sb: ScoreBoardView, m: MatchView, id: u64)
    requires
        id != m.agent_a.id,
        id != m.agent_b.id,
    ensures
        score_of(recorded(sb, m).scores, id) == score_of(sb.scores, id),
        count_of(recorded(sb, m).wins, id) == count_of(sb.wins, id),
        count_of(recorded(sb, m).losses, id) == count_of(sb.losses, id),
        count_of(recorded(sb, m).draws, id) == count_of(sb.draws, id),
{
}

/// Recording a finished match between two distinct agents adds each
/// agent's total to its score; a decisive match gives the winner one win
/// and the loser one loss, a draw gives each agent one draw, and nothing
/// else changes for them.
pub proof fn lemma_record_effect(sb: ScoreBoardView, m: MatchView)
    requires
        m.finished,
        m.agent_a.id != m.agent_b.id,
        record_fits(sb, m),
    ensures
        ({
            let a = m.agent_a.id;
            let b = m.agent_b.id;
            let r = recorded(sb, m);
            &&& score_of(r.scores, a) == score_of(sb.scores, a) + total_a(m.results)
            &&& score_of(r.scores, b) == score_of(sb.scores, b) + total_b(m.results)
            &&& match match_winner(m) {
                Some(w) => {
                    let l = loser_of(m, w);
                    &&& (w == a && l == b) || (w == b && l == a)
                    &&& count_of(r.wins, w) == count_of(sb.wins, w) + 1
                    &&& count_of(r.wins, l) == count_of(sb.wins, l)
                    &&& count_of(r.losses, l) == count_of(sb.losses, l) + 1
                    &&& count_of(r.losses, w) == count_of(sb.losses, w)
                    &&& r.draws == sb.draws
                },
                None => {
                    &&& count_of(r.draws, a) == count_of(sb.draws, a) + 1
                    &&& count_of(r.draws, b) == count_of(sb.draws, b) + 1
                    &&& r.wins == sb.wins
                    &&& r.losses == sb.losses
                },
            }
        }),
{
}

/// The scoreboard after recording the matches of `ms` in order.
pub open spec fn recorded_all(sb: ScoreBoardView, ms: Seq<MatchView>) -> ScoreBoardView
    decreases ms.len(),
{
    if ms.len() == 0 {
        sb
    } else {
        recorded(recorded_all(sb, ms.drop_last()), ms.last())
    }
}

/// Recording the matches of `ms` in order into `sb` overflows nothing.
pub open spec fn records_fit(sb: ScoreBoardView, ms: Seq<MatchView>) -> bool {
    forall|k: int|
        #![trigger ms[k]]
        0 <= k < ms.len() ==> record_fits(recorded_all(sb, ms.take(k)), ms[k])
}

pub open spec fn abs(x: int) -> int {
    if x < 0 {
        -x
    } else {
        x
    }
}

/// Recording `m` into `sb` overflows nothing when the match's totals fit,
/// each agent's score stays within `i32` even after both totals are added,
/// and each agent's counts have room for two more.
pub proof fn lemma_record_fits_bounded(sb: ScoreBoardView, m: MatchView)
    requires
        m.finished ==> {
            let ta = total_a(m.results);
            let tb = total_b(m.results);
            &&& totals_fit(m.results)
            &&& abs(score_of(sb.scores, m.agent_a.id)) + abs(ta) + abs(tb) <= i32::MAX
            &&& abs(score_of(sb.scores, m.agent_b.id)) + abs(ta) + abs(tb) <= i32::MAX
            &&& count_of(sb.wins, m.agent_a.id) < u32::MAX
            &&& count_of(sb.wins, m.agent_b.id) < u32::MAX
            &&& count_of(sb.losses, m.agent_a.id) < u32::MAX
            &&& count_of(sb.losses, m.agent_b.id) < u32::MAX
            &&& count_of(sb.draws, m.agent_a.id) + 2 <= u32::MAX
            &&& count_of(sb.draws, m.agent_b.id) + 2 <= u32::MAX
        },
    ensures
        record_fits(sb, m),
{
}

/// Recording two matches gives the same scoreboard in either order (where
/// neither order overflows).
pub proof fn lemma_record_commutes(sb: ScoreBoardView, m1: MatchView, m2: MatchView)
    requires
        record_fits(sb, m1),
        record_fits(recorded(sb, m1), m2),
        record_fits(sb, m2),
        record_fits(recorded(sb, m2), m1),
    ensures
        recorded(recorded(sb, m1), m2) == recorded(recorded(sb, m2), m1),
{
    let r12 = recorded(recorded(sb, m1), m2);
    let r21 = recorded(recorded(sb, m2), m1);
    assert(r12.scores =~= r21.scores);
    assert(r12.wins =~= r21.wins);
    assert(r12.losses =~= r21.losses);
    assert(r12.draws =~= r21.draws);
}

/// Number of finished matches of `ms` that agent `id` played in.
pub open spec fn appearances(ms: Seq<MatchView>, id: u64) -> int
    decreases ms.len(),
{
    if ms.len() == 0 {
        0
    } else {
        appearances(ms.drop_last(), id) + if ms.last().finished && (ms.last().agent_a.id == id
            || ms.last().agent_b.id == id) {
            1int
        } else {
            0int
        }
    }
}

/// Points agent `id` scored over the finished matches of `ms`.
pub open spec fn points_scored(ms: Seq<MatchView>, id: u64) -> int
    decreases ms.len(),
{
    if ms.len() == 0 {
        0
    } else {
        let m = ms.last();
        points_scored(ms.drop_last(), id) + if m.finished {
            (if m.agent_a.id == id {
                total_a(m.results)
            } else {
                0
            }) + (if m.agent_b.id == id {
                total_b(m.results)
            } else {
                0
            })
        } else {
            0
        }
    }
}

/// The sum of the counts of the ids in `ids`.
pub open spec fn sum_counts(m: Map<u64, u32>, ids: Seq<u64>) -> int
    decreases ids.len(),
{
    if ids.len() == 0 {
        0
    } else {
        sum_counts(m, ids.drop_last()) + count_of(m, ids.last())
    }
}

proof fn lemma_sum_bump(m: Map<u64, u32>, x: u64, ids: Seq<u64>)
    requires
        ids.no_duplicates(),
        count_of(m, x) < u32::MAX,
    ensures
        sum_counts(bump_count(m, x), ids) == sum_counts(m, ids) + if ids.contains(x) {
            1int
        } else {
            0int
        },
    decreases ids.len(),
{
    if ids.len() > 0 {
        let init = ids.drop_last();
        assert(init.no_duplicates());
        lemma_sum_bump(m, x, init);
        if ids.last() == x {
            assert(!init.contains(x));
        } else {
            if ids.contains(x) {
                let i = choose|i: int| 0 <= i < ids.len() && ids[i] == x;
                assert(init[i] == x);
            }
            if init.contains(x) {
                let i = choose|i: int| 0 <= i < init.len() && init[i] == x;
                assert(ids[i] == x);
            }
        }
    }
}

proof fn lemma_records_fit_prefix(sb: ScoreBoardView, ms: Seq<MatchView>)
    requires
        records_fit(sb, ms),
        ms.len() > 0,
    ensures
        records_fit(sb, ms.drop_last()),
        record_fits(recorded_all(sb, ms.drop_last()), ms.last()),
{
    let init = ms.drop_last();
    assert forall|k: int| 0 <= k < init.len() implies record_fits(
        recorded_all(sb, init.take(k)),
        #[trigger] init[k],
    ) by {
        assert(init.take(k) =~= ms.take(k));
        assert(init[k] == ms[k]);
    }
    assert(ms.take(ms.len() - 1) =~= init);
    assert(ms[ms.len() - 1] == ms.last());
}

/// Over any sequence of recordings, an agent's score grows by exactly the
/// points it scored in the finished matches it played.
pub proof fn lemma_recorded_all_scores(sb: ScoreBoardView, ms: Seq<MatchView>, id: u64)
    requires
        records_fit(sb, ms),
    ensures
        score_of(recorded_all(sb, ms).scores, id) == score_of(sb.scores, id) + points_scored(
            ms,
            id,
        ),
    decreases ms.len(),
{
    if ms.len() > 0 {
        lemma_records_fit_prefix(sb, ms);
        lemma_recorded_all_scores(sb, ms.drop_last(), id);
    }
}

/// Over any sequence of recordings of matches between two distinct agents,
/// an agent's wins, losses and draws together grow by exactly the number
/// of finished matches it played.
pub proof fn lemma_recorded_all_counts(sb: ScoreBoardView, ms: Seq<MatchView>, id: u64)
    requires
        records_fit(sb, ms),
        forall|j: int| 0 <= j < ms.len() ==> #[trigger] ms[j].agent_a.id != ms[j].agent_b.id,
    ensures
        ({
            let r = recorded_all(sb, ms);
            count_of(r.wins, id) + count_of(r.losses, id) + count_of(r.draws, id) == count_of(
                sb.wins,
                id,
            ) + count_of(sb.losses, id) + count_of(sb.draws, id) + appearances(ms, id)
        }),
    decreases ms.len(),
{
    if ms.len() > 0 {
        let init = ms.drop_last();
        lemma_records_fit_prefix(sb, ms);
        assert forall|j: int| 0 <= j < init.len() implies #[trigger] init[j].agent_a.id
            != init[j].agent_b.id by {
            assert(init[j] == ms[j]);
        }
        lemma_recorded_all_counts(sb, init, id);
        assert(ms.last() == ms[ms.len() - 1]);
    }
}

/// Over any sequence of recordings, wins and losses grow together: summed
/// over any list of distinct ids that holds every agent of the finished
/// matches, the wins gained equal the losses gained.
pub proof fn lemma_recorded_all_wins_losses(sb: ScoreBoardView, ms: Seq<MatchView>, ids: Seq<u64>)
    requires
        records_fit(sb, ms),
        ids.no_duplicates(),
        forall|j: int|
            0 <= j < ms.len() && #[trigger] ms[j].finished ==> ids.contains(ms[j].agent_a.id)
                && ids.contains(ms[j].agent_b.id),
    ensures
        ({
            let r = recorded_all(sb, ms);
            sum_counts(r.wins, ids) - sum_counts(r.losses, ids) == sum_counts(sb.wins, ids)
                - sum_counts(sb.losses, ids)
        }),
    decreases ms.len(),
{
    if ms.len() > 0 {
        let init = ms.drop_last();
        lemma_records_fit_prefix(sb, ms);
        assert forall|j: int| 0 <= j < init.len() && #[trigger] init[j].finished implies ids.contains(
            init[j].agent_a.id,
        ) && ids.contains(init[j].agent_b.id) by {
            assert(init[j] == ms[j]);
        }
        lemma_recorded_all_wins_losses(sb, init, ids);
        let m = ms.last();
        assert(m == ms[ms.len() - 1]);
        let prev = recorded_all(sb, init);
        if m.finished {
            if let Some(w) = match_winner(m) {
                lemma_sum_bump(prev.wins, w, ids);
                lemma_sum_bump(prev.losses, loser_of(m, w), ids);
            }
        }
    }
}

/// Standings recorded from an empty scoreboard: every agent's score is the
/// points it scored, its wins, losses and draws add up to the finished
/// matches it played (when no match pits an id against itself), and the
/// wins of all agents add up to their losses.
pub proof fn lemma_standings(ms: Seq<MatchView>, ids: Seq<u64>, id: u64)
    requires
        records_fit(empty_board(), ms),
        forall|j: int| 0 <= j < ms.len() ==> #[trigger] ms[j].agent_a.id != ms[j].agent_b.id,
        ids.no_duplicates(),
        forall|j: int|
            0 <= j < ms.len() && #[trigger] ms[j].finished ==> ids.contains(ms[j].agent_a.id)
                && ids.contains(ms[j].agent_b.id),
    ensures
        ({
            let r = recorded_all(empty_board(), ms);
            &&& score_of(r.scores, id) == points_scored(ms, id)
            &&& count_of(r.wins, id) + count_of(r.losses, id) + count_of(r.draws, id)
                == appearances(ms, id)
            &&& sum_counts(r.wins, ids) == sum_counts(r.losses, ids)
        }),
{
    lemma_recorded_all_scores(empty_board(), ms, id);
    lemma_recorded_all_counts(empty_board(), ms, id);
    lemma_recorded_all_wins_losses(empty_board(), ms, ids);
    lemma_sum_counts_empty(ids);
}

proof fn lemma_sum_counts_empty(ids: Seq<u64>)
    ensures
        sum_counts(Map::<u64, u32>::empty(), ids) == 0,
    decreases ids.len(),
{
    if ids.len() > 0 {
        lemma_sum_counts_empty(ids.drop_last());
    }
}

impl Clone for ScoreBoard {
    fn clone(&self) -> (c: Self)
        ensures
            c@ == self@,
    {
        ScoreBoard {
            scores: self.scores.clone(),
            wins: self.wins.clone(),
            losses: self.losses.clone(),
            draws: self.draws.clone(),
        }
    }
}

impl Default for ScoreBoard {
    fn default() -> (sb: Self)
        ensures
            sb@ == empty_board(),
    {
        Self::new()
    }
}

} // verus!
