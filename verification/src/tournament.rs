use vstd::prelude::*;

use crate::agent::{Agent, AgentView};
use crate::game::{
    lemma_play_fits_bounded, match_winner, payoffs_within, played_match, totals_fit, Match,
    MatchView,
};
use crate::rules::ArenaRules;

verus! {

/// The views of a sequence of agents.
pub open spec fn agent_views(s: Seq<Agent>) -> Seq<AgentView> {
    s.map_values(|a: Agent| a@)
}

/// The views of a sequence of matches.
pub open spec fn match_views(s: Seq<Match>) -> Seq<MatchView> {
    s.map_values(|m: Match| m@)
}

/// The agent that advances from a match between `a` and `b`: the agent
/// whose id won, the first agent when the id of the winner is also its id,
/// and the first agent on a draw.
pub open spec fn advancing(rules: ArenaRules, rounds: usize, a: AgentView, b: AgentView) -> AgentView {
    match match_winner(played_match(rules, a, b, rounds)) {
        Some(w) => if w == a.id {
            a
        } else {
            b
        },
        None => a,
    }
}

/// The agents of the next bracket round: agents are paired in order, the
/// winner of each pair advances, and an unpaired last agent gets a bye.
pub open spec fn next_round(rules: ArenaRules, rounds: usize, s: Seq<AgentView>) -> Seq<AgentView> {
    Seq::new(
        ((s.len() + 1) / 2) as nat,
        |j: int|
            if 2 * j + 1 < s.len() {
                advancing(rules, rounds, s[2 * j], s[2 * j + 1])
            } else {
                s[2 * j]
            },
    )
}

/// The matches played in one bracket round.
pub open spec fn round_matches(rules: ArenaRules, rounds: usize, s: Seq<AgentView>) -> Seq<MatchView> {
    Seq::new((s.len() / 2) as nat, |j: int| played_match(rules, s[2 * j], s[2 * j + 1], rounds))
}

/// Every match of a single-elimination tournament among `s`, round by round.
pub open spec fn bracket(rules: ArenaRules, rounds: usize, s: Seq<AgentView>) -> Seq<MatchView>
    decreases s.len(),
{
    if s.len() <= 1 {
        Seq::empty()
    } else {
        round_matches(rules, rounds, s) + bracket(rules, rounds, next_round(rules, rounds, s))
    }
}

/// The id of the last agent standing; `None` when there are no agents or
/// when the final (the match between the last two agents) is drawn.
pub open spec fn champion(rules: ArenaRules, rounds: usize, s: Seq<AgentView>) -> Option<u64>
    decreases s.len(),
{
    if s.len() == 0 {
        None
    } else if s.len() == 1 {
        Some(s[0].id)
    } else if s.len() == 2 && match_winner(played_match(rules, s[0], s[1], rounds)) is None {
        None
    } else {
        champion(rules, rounds, next_round(rules, rounds, s))
    }
}

/// Every match of the tournament keeps its running totals within `i32`.
pub open spec fn bracket_fits(rules: ArenaRules, rounds: usize, s: Seq<AgentView>) -> bool {
    forall|j: int|
        0 <= j < bracket(rules, rounds, s).len() ==> #[trigger] totals_fit(
            bracket(rules, rounds, s)[j].results,
        )
}

/// A multi-round elimination tournament.
#[derive(Debug)]
pub struct Tournament {
    pub name: String,
    pub agents: Vec<Agent>,
    pub rounds_per_match: usize,
    pub bracket: Vec<Match>,
    pub finished: bool,
}

fn clone_agents(v: &Vec<Agent>) -> (out: Vec<Agent>)
    ensures
        agent_views(out@) == agent_views(v@),
{
    let mut out: Vec<Agent> = Vec::new();
    let mut i: usize = 0;
    while i < v.len()
        invariant
            0 <= i <= v@.len(),
            out@.len() == i,
            forall|j: int| 0 <= j < i ==> #[trigger] out@[j]@ == v@[j]@,
        decreases v@.len() - i,
    {
        out.push(v[i].clone());
        i += 1;
    }
    assert(agent_views(out@) =~= agent_views(v@));
    out
}

impl Clone for Tournament {
    fn clone(&self) -> (c: Self)
        ensures
            c.name == self.name,
            agent_views(c.agents@) == agent_views(self.agents@),
            c.rounds_per_match == self.rounds_per_match,
            match_views(c.bracket@) == match_views(self.bracket@),
            c.finished == self.finished,
    {
        let bracket = self.bracket.clone();
        assert(match_views(bracket@) =~= match_views(self.bracket@));
        Tournament {
            name: self.name.clone(),
            agents: clone_agents(&self.agents),
            rounds_per_match: self.rounds_per_match,
            bracket,
            finished: self.finished,
        }
    }
}

impl Tournament {
    pub fn new(name: &str, agents: Vec<Agent>, rounds_per_match: usize) -> (t: Self)
        ensures
            t.name@ == name@,
            t.agents@ == agents@,
            t.rounds_per_match == rounds_per_match,
            t.bracket@.len() == 0,
            !t.finished,
    {
        Tournament {
            name: name.to_string(),
            agents,
            rounds_per_match,
            bracket: Vec::new(),
            finished: false,
        }
    }

    /// Run the full tournament: pair agents, play matches, winners advance.
    /// Returns the champion's agent ID (or None for a draw in the final).
    /// A drawn match before the final is decided for the first agent, and a
    /// tournament without agents has no champion either.
    pub fn run(&mut self, rules: &ArenaRules) -> (champ: Option<u64>)
        requires
            bracket_fits(*rules, old(self).rounds_per_match, agent_views(old(self).agents@)),
        ensures
            final(self).name == old(self).name,
            final(self).agents@ == old(self).agents@,
            final(self).rounds_per_match == old(self).rounds_per_match,
            final(self).finished,
            match_views(final(self).bracket@) == bracket(
                *rules,
                old(self).rounds_per_match,
                agent_views(old(self).agents@),
            ),
            champ == champion(*rules, old(self).rounds_per_match, agent_views(old(self).agents@)),
    {
        let ghost init = agent_views(self.agents@);
        let rounds = self.rounds_per_match;
        let mut current: Vec<Agent> = clone_agents(&self.agents);
        self.bracket.clear();
        proof {
            assert(match_views(self.bracket@) =~= Seq::<MatchView>::empty());
            assert(match_views(self.bracket@) + bracket(*rules, rounds, init) =~= bracket(
                *rules,
                rounds,
                init,
            ));
        }
        let mut final_drawn = false;
        while current.len() > 1
            invariant
                final_drawn ==> current@.len() == 1,
                champion(*rules, rounds, init) == if final_drawn {
                    None
                } else {
                    champion(*rules, rounds, agent_views(current@))
                },
                self.name == old(self).name,
                self.agents@ == old(self).agents@,
                self.rounds_per_match == rounds,
                rounds == old(self).rounds_per_match,
                init == agent_views(old(self).agents@),
                match_views(self.bracket@) + bracket(*rules, rounds, agent_views(current@))
                    == bracket(*rules, rounds, init),
                bracket_fits(*rules, rounds, agent_views(current@)),
            decreases current@.len(),
        {
            let ghost cur = agent_views(current@);
            let ghost b0 = match_views(self.bracket@);
            let ghost rm = round_matches(*rules, rounds, cur);
            let ghost nx = next_round(*rules, rounds, cur);
            proof {
                assert(bracket(*rules, rounds, cur) == rm + bracket(*rules, rounds, nx));
            }
            let mut winners: Vec<Agent> = Vec::new();
            let mut i: usize = 0;
            let mut last_drawn = false;
            while i + 1 < current.len()
                invariant
                    i >= 2 ==> (last_drawn <==> match_winner(rm[i as int / 2 - 1]) is None),
                    self.name == old(self).name,
                    self.agents@ == old(self).agents@,
                    self.rounds_per_match == rounds,
                    cur == agent_views(current@),
                    current@.len() > 1,
                    rm == round_matches(*rules, rounds, cur),
                    nx == next_round(*rules, rounds, cur),
                    bracket(*rules, rounds, cur) == rm + bracket(*rules, rounds, nx),
                    bracket_fits(*rules, rounds, cur),
                    i % 2 == 0,
                    i <= current@.len(),
                    agent_views(winners@) == nx.take(i as int / 2),
                    match_views(self.bracket@) == b0 + rm.take(i as int / 2),
                decreases current@.len() - i,
            {
                let ghost j: int = i as int / 2;
                assert(cur[i as int] == current@[i as int]@);
                assert(cur[i + 1] == current@[i + 1]@);
                let b = current[i + 1].clone();
                let a = current[i].clone();
                let mut m = Match::new(a, b, rounds);
                proof {
                    assert(bracket(*rules, rounds, cur)[j] == rm[j]);
                    assert(totals_fit(bracket(*rules, rounds, cur)[j].results));
                }
                m.play(rules);
                let winner_id = m.winner();
                last_drawn = winner_id.is_none();
                let w = match winner_id {
                    Some(wid) => if current[i].id == wid {
                        current[i].clone()
                    } else {
                        current[i + 1].clone()
                    },
                    None => current[i].clone(),
                };
                proof {
                    assert(w@ == nx[j]);
                    assert(2 * j == i);
                    assert(m@ == rm[j]);
                }
                let ghost prev_w = winners@;
                let ghost prev_b = self.bracket@;
                winners.push(w);
                self.bracket.push(m);
                proof {
                    assert(agent_views(winners@) =~= agent_views(prev_w).push(nx[j]));
                    assert(agent_views(winners@) =~= nx.take(j + 1));
                    assert(match_views(self.bracket@) =~= match_views(prev_b).push(rm[j]));
                    assert(match_views(self.bracket@) =~= b0 + rm.take(j + 1));
                }
                i += 2;
            }
            if i < current.len() {
                let ghost prev_w = winners@;
                proof {
                    assert(cur[i as int] == current@[i as int]@);
                    assert(nx[i as int / 2] == cur[i as int]);
                }
                winners.push(current[i].clone());
                proof {
                    assert(agent_views(winners@) =~= agent_views(prev_w).push(nx[i as int / 2]));
                    assert(agent_views(winners@) =~= nx.take(i as int / 2 + 1));
                }
            }
            proof {
                assert(agent_views(winners@) =~= nx);
                assert(rm.take(i as int / 2) =~= rm);
                assert(match_views(self.bracket@) + bracket(*rules, rounds, nx) =~= b0 + bracket(
                    *rules,
                    rounds,
                    cur,
                ));
                assert forall|k: int|
                    0 <= k < bracket(*rules, rounds, nx).len() implies #[trigger] totals_fit(
                    bracket(*rules, rounds, nx)[k].results,
                ) by {
                    assert(bracket(*rules, rounds, cur)[rm.len() + k] == bracket(*rules, rounds, nx)[k]);
                    assert(totals_fit(bracket(*rules, rounds, cur)[rm.len() + k].results));
                }
            }
            final_drawn = current.len() == 2 && last_drawn;
            current = winners;
        }
        self.finished = true;
        proof {
            assert(match_views(self.bracket@) + Seq::<MatchView>::empty() =~= match_views(
                self.bracket@,
            ));
        }
        if current.len() == 1 && !final_drawn {
            Some(current[0].id)
        } else {
            None
        }
    }

    pub fn match_count(&self) -> (n: usize)
        ensures
            n == self.bracket@.len(),
    {
        self.bracket.len()
    }
}

/// The agent that advances from a match is one of its two agents: the
/// first one on a draw (tiebreak), the winner otherwise.
pub proof fn lemma_advancing(rules: ArenaRules, rounds: usize, a: AgentView, b: AgentView)
    ensures
        advancing(rules, rounds, a, b) == a || advancing(rules, rounds, a, b) == b,
        match_winner(played_match(rules, a, b, rounds)) is None ==> advancing(rules, rounds, a, b)
            == a,
        match_winner(played_match(rules, a, b, rounds)) == Some(a.id) ==> advancing(
            rules,
            rounds,
            a,
            b,
        ) == a,
        match_winner(played_match(rules, a, b, rounds)) == Some(b.id) && a.id != b.id
            ==> advancing(rules, rounds, a, b) == b,
        advancing(rules, rounds, a, b).id == match_winner(played_match(rules, a, b, rounds)).unwrap_or(a.id),
{
}

/// Every agent of the next round was an agent of this round; an odd agent
/// out gets a bye and advances unplayed.
pub proof fn lemma_next_round(rules: ArenaRules, rounds: usize, s: Seq<AgentView>)
    ensures
        next_round(rules, rounds, s).len() == (s.len() + 1) / 2,
        forall|j: int|
            0 <= j < next_round(rules, rounds, s).len() ==> s.contains(
                #[trigger] next_round(rules, rounds, s)[j],
            ),
        s.len() % 2 == 1 ==> next_round(rules, rounds, s).last() == s.last(),
{
    let nx = next_round(rules, rounds, s);
    assert forall|j: int| 0 <= j < nx.len() implies s.contains(#[trigger] nx[j]) by {
        if 2 * j + 1 < s.len() {
            lemma_advancing(rules, rounds, s[2 * j], s[2 * j + 1]);
            if nx[j] == s[2 * j] {
                assert(s[2 * j] == nx[j]);
            } else {
                assert(s[2 * j + 1] == nx[j]);
            }
        } else {
            assert(s[2 * j] == nx[j]);
        }
    }
}

/// A single-elimination tournament among `n >= 1` agents plays exactly
/// `n - 1` matches (each match eliminates one agent, a bye none); with no
/// agents it plays none.
pub proof fn lemma_bracket_len(rules: ArenaRules, rounds: usize, s: Seq<AgentView>)
    ensures
        bracket(rules, rounds, s).len() == if s.len() == 0 {
            0
        } else {
            s.len() - 1
        },
    decreases s.len(),
{
    if s.len() > 1 {
        lemma_bracket_len(rules, rounds, next_round(rules, rounds, s));
    }
}

/// Every match of a bracket has been played to the end.
pub proof fn lemma_bracket_finished(rules: ArenaRules, rounds: usize, s: Seq<AgentView>)
    ensures
        forall|j: int|
            0 <= j < bracket(rules, rounds, s).len() ==> #[trigger] bracket(rules, rounds, s)[j].finished,
    decreases s.len(),
{
    if s.len() > 1 {
        let nx = next_round(rules, rounds, s);
        lemma_bracket_finished(rules, rounds, nx);
        let rm = round_matches(rules, rounds, s);
        assert forall|j: int| 0 <= j < bracket(rules, rounds, s).len() implies #[trigger] bracket(
            rules,
            rounds,
            s,
        )[j].finished by {
            if j >= rm.len() {
                assert(bracket(rules, rounds, s)[j] == bracket(rules, rounds, nx)[j - rm.len()]);
            }
        }
    }
}

/// Every match of a bracket is the match between its two agents played to
/// the end with the tournament's number of rounds.
pub proof fn lemma_bracket_matches(rules: ArenaRules, rounds: usize, s: Seq<AgentView>)
    ensures
        forall|j: int|
            0 <= j < bracket(rules, rounds, s).len() ==> #[trigger] bracket(rules, rounds, s)[j]
                == played_match(
                rules,
                bracket(rules, rounds, s)[j].agent_a,
                bracket(rules, rounds, s)[j].agent_b,
                rounds,
            ),
    decreases s.len(),
{
    if s.len() > 1 {
        let nx = next_round(rules, rounds, s);
        lemma_bracket_matches(rules, rounds, nx);
        let rm = round_matches(rules, rounds, s);
        assert forall|j: int| 0 <= j < bracket(rules, rounds, s).len() implies #[trigger] bracket(
            rules,
            rounds,
            s,
        )[j] == played_match(
            rules,
            bracket(rules, rounds, s)[j].agent_a,
            bracket(rules, rounds, s)[j].agent_b,
            rounds,
        ) by {
            if j >= rm.len() {
                assert(bracket(rules, rounds, s)[j] == bracket(rules, rounds, nx)[j - rm.len()]);
            }
        }
    }
}

/// A tournament whose payoffs all lie within `-bound ..= bound` cannot
/// overflow when `rounds * bound` fits in an `i32`: `run` may be called.
pub proof fn lemma_bracket_fits_bounded(
    rules: ArenaRules,
    rounds: usize,
    s: Seq<AgentView>,
    bound: int,
)
    requires
        0 <= bound,
        payoffs_within(rules, bound),
        rounds * bound <= i32::MAX,
    ensures
        bracket_fits(rules, rounds, s),
{
    lemma_bracket_matches(rules, rounds, s);
    let br = bracket(rules, rounds, s);
    assert forall|j: int| 0 <= j < br.len() implies #[trigger] totals_fit(br[j].results) by {
        lemma_play_fits_bounded(rules, br[j].agent_a, br[j].agent_b, rounds, bound);
    }
}

/// A tournament has a champion exactly when it has agents and its final
/// (the last match of the bracket) is not drawn; a lone agent is champion
/// without playing; the champion is one of the agents.
pub proof fn lemma_champion(rules: ArenaRules, rounds: usize, s: Seq<AgentView>)
    ensures
        s.len() == 0 ==> champion(rules, rounds, s) is None,
        s.len() == 1 ==> champion(rules, rounds, s) == Some(s[0].id),
        s.len() >= 2 ==> bracket(rules, rounds, s).len() > 0 && (champion(rules, rounds, s) is None
            <==> match_winner(bracket(rules, rounds, s).last()) is None),
        champion(rules, rounds, s) matches Some(id) ==> exists|i: int|
            0 <= i < s.len() && #[trigger] s[i].id == id,
    decreases s.len(),
{
    if s.len() > 1 {
        let nx = next_round(rules, rounds, s);
        let rm = round_matches(rules, rounds, s);
        lemma_champion(rules, rounds, nx);
        lemma_next_round(rules, rounds, s);
        let br = bracket(rules, rounds, s);
        assert(br == rm + bracket(rules, rounds, nx));
        if s.len() == 2 {
            assert(bracket(rules, rounds, nx).len() == 0);
            assert(br.last() == rm[0]);
        } else {
            assert(bracket(rules, rounds, nx).len() > 0);
            assert(br.last() == bracket(rules, rounds, nx).last());
        }
        if let Some(id) = champion(rules, rounds, s) {
            let k = choose|k: int| 0 <= k < nx.len() && #[trigger] nx[k].id == id;
            assert(s.contains(nx[k]));
            let i = choose|i: int| 0 <= i < s.len() && s[i] == nx[k];
            assert(s[i].id == id);
        }
    } else if s.len() == 1 {
        assert(s[0].id == champion(rules, rounds, s).unwrap());
    }
}

/// In each bracket round, pair `j` (agents `2j` and `2j + 1`) plays the
/// full match of the tournament's number of rounds, recorded as match `j`
/// of the bracket, and the agent that moves on is that match's winner: the
/// agent whose id won (the first when both carry the winning id), or the
/// first agent on a draw.
pub proof fn lemma_pair_advances(rules: ArenaRules, rounds: usize, s: Seq<AgentView>, j: int)
    requires
        0 <= j,
        2 * j + 1 < s.len(),
    ensures
        ({
            let m = bracket(rules, rounds, s)[j];
            let w = next_round(rules, rounds, s)[j];
            &&& j < bracket(rules, rounds, s).len()
            &&& m == played_match(rules, s[2 * j], s[2 * j + 1], rounds)
            &&& m.results.len() == rounds
            &&& w == match match_winner(m) {
                Some(id) => if id == s[2 * j].id {
                    s[2 * j]
                } else {
                    s[2 * j + 1]
                },
                None => s[2 * j],
            }
            &&& match_winner(m) matches Some(id) ==> w.id == id
        }),
{
    let rm = round_matches(rules, rounds, s);
    let nx = next_round(rules, rounds, s);
    assert(bracket(rules, rounds, s) == rm + bracket(rules, rounds, nx));
    assert(bracket(rules, rounds, s)[j] == rm[j]);
}

/// The champion of a tournament of two or more agents is the winner of its
/// final, the last match of the bracket: none when the final is drawn.
pub proof fn lemma_champion_wins_final(rules: ArenaRules, rounds: usize, s: Seq<AgentView>)
    requires
        s.len() >= 2,
    ensures
        bracket(rules, rounds, s).len() > 0,
        champion(rules, rounds, s) == match_winner(bracket(rules, rounds, s).last()),
    decreases s.len(),
{
    let nx = next_round(rules, rounds, s);
    let rm = round_matches(rules, rounds, s);
    let br = bracket(rules, rounds, s);
    assert(br == rm + bracket(rules, rounds, nx));
    lemma_next_round(rules, rounds, s);
    if s.len() == 2 {
        assert(bracket(rules, rounds, nx).len() == 0);
        assert(br.last() == rm[0]);
        lemma_pair_advances(rules, rounds, s, 0);
        assert(nx.len() == 1);
        assert(champion(rules, rounds, nx) == Some(nx[0].id));
        if match_winner(rm[0]) is None {
            assert(champion(rules, rounds, s) is None);
        } else {
            assert(champion(rules, rounds, s) == champion(rules, rounds, nx));
        }
    } else {
        lemma_champion_wins_final(rules, rounds, nx);
        assert(br.last() == bracket(rules, rounds, nx).last());
    }
}

} // verus!
