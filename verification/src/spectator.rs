use vstd::prelude::*;

use crate::game::{match_winner, total_a, total_b, totals_fit, Match, MatchView};

verus! {

broadcast use vstd::string::to_string_from_display_ensures_for_str;

/// What a spectator noted about one finished match.
#[derive(Clone, Copy, Debug)]
pub struct MatchObservation {
    pub agent_a_id: u64,
    pub agent_b_id: u64,
    pub winner_id: Option<u64>,
    pub a_total: i32,
    pub b_total: i32,
}

/// The observation of a finished match.
pub open spec fn observation_of(m: MatchView) -> MatchObservation {
    MatchObservation {
        agent_a_id: m.agent_a.id,
        agent_b_id: m.agent_b.id,
        winner_id: match_winner(m),
        a_total: total_a(m.results) as i32,
        b_total: total_b(m.results) as i32,
    }
}

/// Whether agent `id` took part in the observed match.
pub open spec fn took_part(o: MatchObservation, id: u64) -> bool {
    o.agent_a_id == id || o.agent_b_id == id
}

/// Number of observed matches agent `id` took part in.
pub open spec fn participations(s: Seq<MatchObservation>, id: u64) -> nat
    decreases s.len(),
{
    if s.len() == 0 {
        0
    } else {
        participations(s.drop_last(), id) + if took_part(s.last(), id) {
            1nat
        } else {
            0nat
        }
    }
}

/// Number of observed matches agent `id` took part in and won.
pub open spec fn victories(s: Seq<MatchObservation>, id: u64) -> nat
    decreases s.len(),
{
    if s.len() == 0 {
        0
    } else {
        victories(s.drop_last(), id) + if took_part(s.last(), id) && s.last().winner_id == Some(
            id,
        ) {
            1nat
        } else {
            0nat
        }
    }
}

/// The observation of a finished match notes its two agents, its winner
/// (the agent with the strictly larger total, none on equal totals) and
/// both totals.
pub proof fn lemma_observation(m: MatchView)
    requires
        m.finished,
        totals_fit(m.results),
    ensures
        ({
            let o = observation_of(m);
            let ta = total_a(m.results);
            let tb = total_b(m.results);
            &&& o.agent_a_id == m.agent_a.id
            &&& o.agent_b_id == m.agent_b.id
            &&& o.winner_id == match_winner(m)
            &&& o.winner_id == (if ta > tb {
                Some(m.agent_a.id)
            } else if tb > ta {
                Some(m.agent_b.id)
            } else {
                None
            })
            &&& o.a_total == ta
            &&& o.b_total == tb
        }),
{
    assert(m.results.take(m.results.len() as int) =~= m.results);
}

/// An agent's participations are the observations it took part in, and its
/// victories those of them it won: an observation of a draw, or of a match
/// someone else won, is no victory.
pub proof fn lemma_win_counts(s: Seq<MatchObservation>, id: u64)
    ensures
        participations(s, id) == s.filter(|o: MatchObservation| took_part(o, id)).len(),
        victories(s, id) == s.filter(
            |o: MatchObservation| took_part(o, id) && o.winner_id == Some(id),
        ).len(),
        victories(s, id) <= participations(s, id),
    decreases s.len(),
{
    reveal(Seq::filter);
    let part = |o: MatchObservation| took_part(o, id);
    let won = |o: MatchObservation| took_part(o, id) && o.winner_id == Some(id);
    if s.len() > 0 {
        lemma_win_counts(s.drop_last(), id);
        assert(s.filter(part) == if part(s.last()) {
            s.drop_last().filter(part).push(s.last())
        } else {
            s.drop_last().filter(part)
        });
        assert(s.filter(won) == if won(s.last()) {
            s.drop_last().filter(won).push(s.last())
        } else {
            s.drop_last().filter(won)
        });
    } else {
        assert(s.filter(part) == s);
        assert(s.filter(won) == s);
    }
}

/// An agent's victories are the observations it took part in whose winner
/// is that agent, counted one by one: recording a further observation adds
/// one exactly when the agent took part in it and won it.
pub proof fn lemma_win_counts_push(s: Seq<MatchObservation>, o: MatchObservation, id: u64)
    ensures
        victories(s.push(o), id) == victories(s, id) + if took_part(o, id) && o.winner_id == Some(
            id,
        ) {
            1int
        } else {
            0int
        },
        participations(s.push(o), id) == participations(s, id) + if took_part(o, id) {
            1int
        } else {
            0int
        },
        o.winner_id is None ==> victories(s.push(o), id) == victories(s, id),
        victories(Seq::<MatchObservation>::empty(), id) == 0,
        participations(Seq::<MatchObservation>::empty(), id) == 0,
{
    assert(s.push(o).drop_last() =~= s);
}

/// An observer that records match outcomes for analysis.
#[derive(Debug)]
pub struct ArenaSpectator {
    pub name: String,
    observations: Vec<MatchObservation>,
}

/// What a spectator is: its name and the observations made so far, oldest
/// first.
#[verifier::ext_equal]
pub struct SpectatorView {
    pub name: Seq<char>,
    pub observations: Seq<MatchObservation>,
}

impl View for ArenaSpectator {
    type V = SpectatorView;

    closed spec fn view(&self) -> SpectatorView {
        SpectatorView { name: self.name@, observations: self.observations@ }
    }
}

impl Clone for ArenaSpectator {
    fn clone(&self) -> (c: Self)
        ensures
            c@ == self@,
    {
        let observations = self.observations.clone();
        assert(observations@ =~= self.observations@);
        ArenaSpectator { name: self.name.clone(), observations }
    }
}

impl ArenaSpectator {
    pub fn new(name: &str) -> (s: Self)
        ensures
            s@.name == name@,
            s@.observations == Seq::<MatchObservation>::empty(),
    {
        ArenaSpectator { name: name.to_string(), observations: Vec::new() }
    }

    /// Note the outcome of a finished match; an unfinished one is ignored.
    pub fn observe(&mut self, m: &Match)
        requires
            m.finished ==> totals_fit(m.results@),
        ensures
            final(self)@.name == old(self)@.name,
            final(self)@.observations == if m.finished {
                old(self)@.observations.push(observation_of(m@))
            } else {
                old(self)@.observations
            },
    {
        if !m.finished {
            return;
        }
        let (a_total, b_total) = m.total_points();
        let winner_id = m.winner();
        self.observations.push(
            MatchObservation {
                agent_a_id: m.agent_a.id,
                agent_b_id: m.agent_b.id,
                winner_id,
                a_total,
                b_total,
            },
        );
    }

    pub fn observation_count(&self) -> (n: usize)
        ensures
            n == self@.observations.len(),
    {
        self.observations.len()
    }

    pub fn observations(&self) -> (obs: &[MatchObservation])
        ensures
            obs@ == self@.observations,
    {
        self.observations.as_slice()
    }

    /// For agent `agent_id`: the number of observed matches it won and
    /// the number it took part in. Its win rate is the first divided by
    /// the second (0 when it took part in none).
    pub fn win_record(&self, agent_id: u64) -> (rec: (usize, usize))
        ensures
            rec.0 == victories(self@.observations, agent_id),
            rec.1 == participations(self@.observations, agent_id),
            rec.0 <= rec.1,
    {
        let mut wins: usize = 0;
        let mut participated: usize = 0;
        let mut i: usize = 0;
        while i < self.observations.len()
            invariant
                0 <= i <= self.observations@.len(),
                wins == victories(self.observations@.take(i as int), agent_id),
                participated == participations(self.observations@.take(i as int), agent_id),
                wins <= participated <= i,
            decreases self.observations@.len() - i,
        {
            let o = &self.observations[i];
            proof {
                assert(self.observations@.take(i + 1).drop_last() =~= self.observations@.take(
                    i as int,
                ));
            }
            if o.agent_a_id == agent_id || o.agent_b_id == agent_id {
                participated += 1;
                if o.winner_id == Some(agent_id) {
                    wins += 1;
                }
            }
            i += 1;
        }
        proof {
            assert(self.observations@.take(self.observations@.len() as int) =~= self.observations@);
        }
        (wins, participated)
    }
}

} // verus!
