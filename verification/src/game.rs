use vstd::prelude::*;

use crate::agent::{lemma_strategy_move, strategy_move, Agent, AgentView};
use crate::rules::{default_payoff, ArenaRules};
use crate::trit::Trit;

verus! {

/// Result of a single round within a match.
#[derive(Clone, Copy, Debug, PartialEq, Eq, Structural)]
pub struct RoundResult {
    pub round: usize,
    pub a_move: Trit,
    pub b_move: Trit,
    pub a_points: i32,
    pub b_points: i32,
}

/// The result of round `r` between `a` and `b` under `rules`.
pub open spec fn round_result(rules: ArenaRules, a: AgentView, b: AgentView, r: int) -> RoundResult {
    let am = strategy_move(a.strategy, r);
    let bm = strategy_move(b.strategy, r);
    RoundResult {
        round: r as usize,
        a_move: am,
        b_move: bm,
        a_points: rules.payoff(am, bm),
        b_points: rules.payoff(bm, am),
    }
}

/// The results of the first `n` rounds between `a` and `b` under `rules`.
pub open spec fn played_rounds(rules: ArenaRules, a: AgentView, b: AgentView, n: nat) -> Seq<
    RoundResult,
> {
    Seq::new(n, |r: int| round_result(rules, a, b, r))
}

/// Total points of the first agent over a sequence of round results.
pub open spec fn total_a(s: Seq<RoundResult>) -> int
    decreases s.len(),
{
    if s.len() == 0 {
        0
    } else {
        total_a(s.drop_last()) + s.last().a_points
    }
}

/// Total points of the second agent over a sequence of round results.
pub open spec fn total_b(s: Seq<RoundResult>) -> int
    decreases s.len(),
{
    if s.len() == 0 {
        0
    } else {
        total_b(s.drop_last()) + s.last().b_points
    }
}

pub open spec fn fits_i32(x: int) -> bool {
    i32::MIN <= x <= i32::MAX
}

/// Every running total of both agents over `s` fits in an `i32`.
pub open spec fn totals_fit(s: Seq<RoundResult>) -> bool {
    forall|k: int|
        #![trigger s.take(k)]
        0 <= k <= s.len() ==> fits_i32(total_a(s.take(k))) && fits_i32(total_b(s.take(k)))
}

/// A match between two agents over a fixed number of rounds.
#[derive(Debug)]
pub struct Match {
    pub agent_a: Agent,
    pub agent_b: Agent,
    pub rounds: usize,
    pub results: Vec<RoundResult>,
    pub finished: bool,
}

/// What a match is, as a mathematical value.
#[verifier::ext_equal]
pub struct MatchView {
    pub agent_a: AgentView,
    pub agent_b: AgentView,
    pub rounds: usize,
    pub results: Seq<RoundResult>,
    pub finished: bool,
}

impl View for Match {
    type V = MatchView;

    open spec fn view(&self) -> MatchView {
        MatchView {
            agent_a: self.agent_a@,
            agent_b: self.agent_b@,
            rounds: self.rounds,
            results: self.results@,
            finished: self.finished,
        }
    }
}

/// The match between `a` and `b` over `rounds` rounds after it was played
/// under `rules`.
pub open spec fn played_match(rules: ArenaRules, a: AgentView, b: AgentView, rounds: usize) -> MatchView {
    MatchView {
        agent_a: a,
        agent_b: b,
        rounds,
        results: played_rounds(rules, a, b, rounds as nat),
        finished: true,
    }
}

/// Whether playing `rounds` rounds between `a` and `b` keeps every running
/// total within `i32`.
pub open spec fn play_fits(rules: ArenaRules, a: AgentView, b: AgentView, rounds: usize) -> bool {
    totals_fit(played_rounds(rules, a, b, rounds as nat))
}

/// The id of the agent with more points in a finished match; `None` for an
/// unfinished match or a draw.
pub open spec fn match_winner(m: MatchView) -> Option<u64> {
    if !m.finished {
        None
    } else if total_a(m.results) > total_b(m.results) {
        Some(m.agent_a.id)
    } else if total_b(m.results) > total_a(m.results) {
        Some(m.agent_b.id)
    } else {
        None
    }
}

proof fn lemma_take_full(s: Seq<RoundResult>)
    ensures
        s.take(s.len() as int) == s,
{
    assert(s.take(s.len() as int) =~= s);
}

/// Sum both agents' points over `results`.
fn sum_points(results: &Vec<RoundResult>) -> (t: (i32, i32))
    requires
        totals_fit(results@),
    ensures
        t.0 == total_a(results@),
        t.1 == total_b(results@),
{
    let mut a: i32 = 0;
    let mut b: i32 = 0;
    let mut i: usize = 0;
    while i < results.len()
        invariant
            0 <= i <= results@.len(),
            totals_fit(results@),
            a == total_a(results@.take(i as int)),
            b == total_b(results@.take(i as int)),
        decreases results@.len() - i,
    {
        proof {
            assert(results@.take(i + 1).drop_last() =~= results@.take(i as int));
            assert(fits_i32(total_a(results@.take(i + 1))));
        }
        a = a + results[i].a_points;
        b = b + results[i].b_points;
        i += 1;
    }
    proof {
        lemma_take_full(results@);
    }
    (a, b)
}

impl Clone for Match {
    fn clone(&self) -> (c: Self)
        ensures
            c@ == self@,
    {
        let results = self.results.clone();
        assert(results@ =~= self.results@);
        Match {
            agent_a: self.agent_a.clone(),
            agent_b: self.agent_b.clone(),
            rounds: self.rounds,
            results,
            finished: self.finished,
        }
    }
}

impl Match {
    pub fn new(agent_a: Agent, agent_b: Agent, rounds: usize) -> (m: Self)
        ensures
            m@ == (MatchView {
                agent_a: agent_a@,
                agent_b: agent_b@,
                rounds,
                results: Seq::empty(),
                finished: false,
            }),
    {
        Match { agent_a, agent_b, rounds, results: Vec::new(), finished: false }
    }

    /// Play all rounds and return (a_total, b_total).
    pub fn play(&mut self, rules: &ArenaRules) -> (totals: (i32, i32))
        requires
            play_fits(*rules, old(self).agent_a@, old(self).agent_b@, old(self).rounds),
        ensures
            final(self)@ == played_match(
                *rules,
                old(self).agent_a@,
                old(self).agent_b@,
                old(self).rounds,
            ),
            totals.0 == total_a(final(self)@.results),
            totals.1 == total_b(final(self)@.results),
    {
        let ghost full = played_rounds(*rules, self.agent_a@, self.agent_b@, self.rounds as nat);
        self.results.clear();
        let mut a_total: i32 = 0;
        let mut b_total: i32 = 0;
        let n = self.rounds;
        for round in 0..n
            invariant
                n == self.rounds,
                self.agent_a@ == old(self).agent_a@,
                self.agent_b@ == old(self).agent_b@,
                full == played_rounds(*rules, self.agent_a@, self.agent_b@, n as nat),
                totals_fit(full),
                self.results@ == full.take(round as int),
                a_total == total_a(self.results@),
                b_total == total_b(self.results@),
        {
            let a_move = self.agent_a.move_at(round);
            let b_move = self.agent_b.move_at(round);
            let (a_pts, b_pts) = rules.resolve(a_move, b_move);
            let rr = RoundResult { round, a_move, b_move, a_points: a_pts, b_points: b_pts };
            proof {
                assert(full.take(round + 1).drop_last() =~= full.take(round as int));
                assert(full.take(round + 1).last() == rr);
            }
            a_total = a_total + a_pts;
            b_total = b_total + b_pts;
            self.results.push(rr);
            assert(self.results@ =~= full.take(round + 1));
        }
        self.finished = true;
        proof {
            lemma_take_full(full);
        }
        (a_total, b_total)
    }

    pub fn winner(&self) -> (w: Option<u64>)
        requires
            self.finished ==> totals_fit(self.results@),
        ensures
            w == match_winner(self@),
    {
        if !self.finished {
            return None;
        }
        let (a_total, b_total) = sum_points(&self.results);
        if a_total > b_total {
            Some(self.agent_a.id)
        } else if b_total > a_total {
            Some(self.agent_b.id)
        } else {
            None
        }
    }

    pub fn total_points(&self) -> (t: (i32, i32))
        requires
            totals_fit(self.results@),
        ensures
            t.0 == total_a(self.results@),
            t.1 == total_b(self.results@),
    {
        sum_points(&self.results)
    }
}

proof fn lemma_played_rounds_drop_last(rules: ArenaRules, a: AgentView, b: AgentView, n: nat)
    requires
        n > 0,
    ensures
        played_rounds(rules, a, b, n).drop_last() == played_rounds(rules, a, b, (n - 1) as nat),
{
    assert(played_rounds(rules, a, b, n).drop_last() =~= played_rounds(rules, a, b, (n - 1) as nat));
}

/// Round `r` of a match played under `rules` is numbered `r`, holds the
/// moves both strategies play in round `r`, and scores each agent the
/// payoff of its move against the other's; every round counts.
pub proof fn lemma_played_rounds(rules: ArenaRules, a: AgentView, b: AgentView, rounds: usize)
    ensures
        ({
            let n = rounds as nat;
            &&& played_rounds(rules, a, b, n).len() == n
            &&& forall|r: int|
            #![trigger played_rounds(rules, a, b, n)[r]]
            0 <= r < n ==> {
                let res = played_rounds(rules, a, b, n)[r];
                let am = strategy_move(a.strategy, r);
                let bm = strategy_move(b.strategy, r);
                &&& res.round == r
                &&& res.a_move == am
                &&& res.b_move == bm
                &&& res.a_points == rules.payoff(am, bm)
                &&& res.b_points == rules.payoff(bm, am)
            }
        }),
{
}

/// A match's totals are the sums of the round payoffs: no rounds score
/// nothing, and each further round adds the payoffs of that round's moves.
pub proof fn lemma_played_totals(rules: ArenaRules, a: AgentView, b: AgentView, n: nat)
    ensures
        total_a(played_rounds(rules, a, b, 0)) == 0,
        total_b(played_rounds(rules, a, b, 0)) == 0,
        total_a(played_rounds(rules, a, b, n + 1)) == total_a(played_rounds(rules, a, b, n))
            + rules.payoff(strategy_move(a.strategy, n as int), strategy_move(b.strategy, n as int)),
        total_b(played_rounds(rules, a, b, n + 1)) == total_b(played_rounds(rules, a, b, n))
            + rules.payoff(strategy_move(b.strategy, n as int), strategy_move(a.strategy, n as int)),
{
    lemma_played_rounds_drop_last(rules, a, b, n + 1);
}

/// Two agents that always play `x` and `y` score `n` times the payoff of
/// `x` against `y` (and of `y` against `x`) over `n` rounds.
pub proof fn lemma_constant_strategies(rules: ArenaRules, a: AgentView, b: AgentView, n: nat, x: Trit, y: Trit)
    requires
        a.strategy == seq![x],
        b.strategy == seq![y],
    ensures
        total_a(played_rounds(rules, a, b, n)) == n * rules.payoff(x, y),
        total_b(played_rounds(rules, a, b, n)) == n * rules.payoff(y, x),
    decreases n,
{
    lemma_played_totals(rules, a, b, 0);
    if n > 0 {
        let m = (n - 1) as nat;
        lemma_constant_strategies(rules, a, b, m, x, y);
        lemma_played_totals(rules, a, b, m);
        lemma_strategy_move(a.strategy, m as int);
        lemma_strategy_move(b.strategy, m as int);
        assert(m as int % 1 == 0);
        assert(strategy_move(a.strategy, m as int) == x);
        assert(strategy_move(b.strategy, m as int) == y);
        let p = rules.payoff(x, y) as int;
        let q = rules.payoff(y, x) as int;
        assert(m * p + p == n * p) by (nonlinear_arith)
            requires
                n == m + 1,
        ;
        assert(m * q + q == n * q) by (nonlinear_arith)
            requires
                n == m + 1,
        ;
        assert(total_b(played_rounds(rules, a, b, m)) == m * q);
        assert(total_b(played_rounds(rules, a, b, m + 1)) == total_b(played_rounds(rules, a, b, m)) + q);
        assert(m + 1 == n);
        assert(played_rounds(rules, a, b, m + 1) == played_rounds(rules, a, b, n));
    } else {
        assert(played_rounds(rules, a, b, n) == played_rounds(rules, a, b, 0));
    }
}

/// A finished match is won by the agent with the strictly larger total;
/// equal totals, or an unfinished match, have no winner.
pub proof fn lemma_match_winner(m: MatchView)
    ensures
        !m.finished ==> match_winner(m) is None,
        m.finished && total_a(m.results) > total_b(m.results) ==> match_winner(m) == Some(
            m.agent_a.id,
        ),
        m.finished && total_b(m.results) > total_a(m.results) ==> match_winner(m) == Some(
            m.agent_b.id,
        ),
        m.finished && total_a(m.results) == total_b(m.results) ==> match_winner(m) is None,
{
}

/// Swapping the two agents of a match swaps their totals, and the same
/// agent wins (or it is a draw either way).
pub proof fn lemma_swap_agents(rules: ArenaRules, a: AgentView, b: AgentView, rounds: usize)
    ensures
        total_a(played_rounds(rules, b, a, rounds as nat)) == total_b(
            played_rounds(rules, a, b, rounds as nat),
        ),
        total_b(played_rounds(rules, b, a, rounds as nat)) == total_a(
            played_rounds(rules, a, b, rounds as nat),
        ),
        match_winner(played_match(rules, b, a, rounds)) == match_winner(
            played_match(rules, a, b, rounds),
        ),
    decreases rounds,
{
    if rounds > 0 {
        let n = (rounds - 1) as usize;
        lemma_swap_agents(rules, a, b, n);
        lemma_played_rounds_drop_last(rules, a, b, rounds as nat);
        lemma_played_rounds_drop_last(rules, b, a, rounds as nat);
    }
}

/// Two agents with the same strategy always draw: their totals are equal
/// and a played match between them has no winner.
pub proof fn lemma_mirror_match_draws(rules: ArenaRules, a: AgentView, b: AgentView, rounds: usize)
    requires
        a.strategy == b.strategy,
    ensures
        total_a(played_rounds(rules, a, b, rounds as nat)) == total_b(
            played_rounds(rules, a, b, rounds as nat),
        ),
        match_winner(played_match(rules, a, b, rounds)) is None,
    decreases rounds,
{
    if rounds > 0 {
        lemma_mirror_match_draws(rules, a, b, (rounds - 1) as usize);
        lemma_played_rounds_drop_last(rules, a, b, rounds as nat);
    }
}

/// After `play`, the played match meets the `requires` of `total_points`
/// and `winner`: `total_points` reads back exactly the totals `play`
/// returned, and `winner` names the agent with more of them.
pub proof fn lemma_play_then_read_back(rules: ArenaRules, a: AgentView, b: AgentView, rounds: usize)
    requires
        play_fits(rules, a, b, rounds),
    ensures
        ({
            let m = played_match(rules, a, b, rounds);
            let played = played_rounds(rules, a, b, rounds as nat);
            &&& m.finished
            &&& totals_fit(m.results)
            &&& m.results.len() == rounds
            &&& total_a(m.results) == total_a(played)
            &&& total_b(m.results) == total_b(played)
            &&& match_winner(m) == (if total_a(played) > total_b(played) {
                Some(a.id)
            } else if total_b(played) > total_a(played) {
                Some(b.id)
            } else {
                None
            })
        }),
{
}

/// Every payoff of `rules` lies within `-bound ..= bound`.
pub open spec fn payoffs_within(rules: ArenaRules, bound: int) -> bool {
    forall|x: Trit, y: Trit| -bound <= #[trigger] rules.payoff(x, y) <= bound
}

/// The default payoffs (0, 1 or 3) lie within `-3 ..= 3`.
pub proof fn lemma_default_payoffs_within(rules: ArenaRules)
    requires
        forall|x: Trit, y: Trit| #[trigger] rules.payoff(x, y) == default_payoff(x, y),
    ensures
        payoffs_within(rules, 3),
{
}

proof fn lemma_totals_bounded(s: Seq<RoundResult>, bound: int)
    requires
        0 <= bound,
        forall|i: int|
            0 <= i < s.len() ==> -bound <= #[trigger] s[i].a_points <= bound && -bound
                <= s[i].b_points <= bound,
    ensures
        -(s.len() * bound) <= total_a(s) <= s.len() * bound,
        -(s.len() * bound) <= total_b(s) <= s.len() * bound,
    decreases s.len(),
{
    if s.len() > 0 {
        let t = s.drop_last();
        assert forall|i: int| 0 <= i < t.len() implies -bound <= #[trigger] t[i].a_points <= bound
            && -bound <= t[i].b_points <= bound by {
            assert(t[i] == s[i]);
        }
        lemma_totals_bounded(t, bound);
        assert(s.last() == s[s.len() - 1]);
        let n = s.len() as int;
        assert((n - 1) * bound + bound == n * bound) by (nonlinear_arith);
    }
}

/// A match whose payoffs all lie within `-bound ..= bound` cannot overflow
/// when `rounds * bound` fits in an `i32`: `play` may be called, and each
/// agent's total lies within `-(rounds * bound) ..= rounds * bound`.
pub proof fn lemma_play_fits_bounded(
    rules: ArenaRules,
    a: AgentView,
    b: AgentView,
    rounds: usize,
    bound: int,
)
    requires
        0 <= bound,
        payoffs_within(rules, bound),
        rounds * bound <= i32::MAX,
    ensures
        play_fits(rules, a, b, rounds),
        -(rounds * bound) <= total_a(played_rounds(rules, a, b, rounds as nat)) <= rounds * bound,
        -(rounds * bound) <= total_b(played_rounds(rules, a, b, rounds as nat)) <= rounds * bound,
{
    let s = played_rounds(rules, a, b, rounds as nat);
    assert forall|k: int| 0 <= k <= s.len() implies fits_i32(total_a(#[trigger] s.take(k)))
        && fits_i32(total_b(s.take(k))) by {
        let t = s.take(k);
        assert forall|i: int| 0 <= i < t.len() implies -bound <= #[trigger] t[i].a_points
            <= bound && -bound <= t[i].b_points <= bound by {
            assert(t[i] == round_result(rules, a, b, i));
            let am = strategy_move(a.strategy, i);
            let bm = strategy_move(b.strategy, i);
            assert(-bound <= rules.payoff(am, bm) <= bound);
            assert(-bound <= rules.payoff(bm, am) <= bound);
        }
        lemma_totals_bounded(t, bound);
        assert(k * bound <= rounds * bound) by (nonlinear_arith)
            requires
                0 <= k <= rounds,
                0 <= bound,
        ;
    }
    lemma_play_fits_bounded_total(rules, a, b, rounds, bound);
}

proof fn lemma_play_fits_bounded_total(
    rules: ArenaRules,
    a: AgentView,
    b: AgentView,
    rounds: usize,
    bound: int,
)
    requires
        0 <= bound,
        payoffs_within(rules, bound),
    ensures
        -(rounds * bound) <= total_a(played_rounds(rules, a, b, rounds as nat)) <= rounds * bound,
        -(rounds * bound) <= total_b(played_rounds(rules, a, b, rounds as nat)) <= rounds * bound,
{
    let s = played_rounds(rules, a, b, rounds as nat);
    assert forall|i: int| 0 <= i < s.len() implies -bound <= #[trigger] s[i].a_points <= bound
        && -bound <= s[i].b_points <= bound by {
        let am = strategy_move(a.strategy, i);
        let bm = strategy_move(b.strategy, i);
        assert(-bound <= rules.payoff(am, bm) <= bound);
        assert(-bound <= rules.payoff(bm, am) <= bound);
    }
    lemma_totals_bounded(s, bound);
}

} // verus!
