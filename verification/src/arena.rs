use vstd::prelude::*;

use crate::game::{play_fits, played_match, totals_fit, Match, MatchView};
use crate::rules::{all_pairs, default_payoff, ArenaRules};
use crate::scoreboard::{
    empty_board, record_fits, recorded, recorded_all, records_fit, ScoreBoard, ScoreBoardView,
};
use crate::spectator::{observation_of, ArenaSpectator, MatchObservation, SpectatorView};
use crate::tournament::{agent_views, bracket, bracket_fits, champion, match_views, Tournament};
use crate::trit::Trit;

verus! {

broadcast use vstd::string::to_string_from_display_ensures_for_str;

/// The observations of the finished matches of `ms`, in order.
pub open spec fn observations_of(ms: Seq<MatchView>) -> Seq<MatchObservation> {
    ms.map_values(|m: MatchView| observation_of(m))
}

/// The competition environment that orchestrates matches and tracks standings.
#[derive(Debug)]
pub struct Arena {
    pub name: String,
    pub rules: ArenaRules,
    pub scoreboard: ScoreBoard,
    pub spectator: ArenaSpectator,
}

/// What an arena is: its name, its rules, and what its scoreboard and its
/// spectator hold.
#[verifier::ext_equal]
pub struct ArenaView {
    pub name: Seq<char>,
    pub rules: ArenaRules,
    pub scoreboard: ScoreBoardView,
    pub spectator: SpectatorView,
}

impl View for Arena {
    type V = ArenaView;

    open spec fn view(&self) -> ArenaView {
        ArenaView {
            name: self.name@,
            rules: self.rules,
            scoreboard: self.scoreboard@,
            spectator: self.spectator@,
        }
    }
}

/// The arena after a match `m` is run in it, and the match as played: the
/// match is played under the arena's rules, then recorded on its
/// scoreboard and observed by its spectator.
pub open spec fn after_match(a: ArenaView, m: MatchView) -> (ArenaView, MatchView) {
    let played = played_match(a.rules, m.agent_a, m.agent_b, m.rounds);
    (
        ArenaView {
            name: a.name,
            rules: a.rules,
            scoreboard: recorded(a.scoreboard, played),
            spectator: SpectatorView {
                name: a.spectator.name,
                observations: a.spectator.observations.push(observation_of(played)),
            },
        },
        played,
    )
}

/// Running `m` in arena `a` overflows nothing.
pub open spec fn match_fits(a: ArenaView, m: MatchView) -> bool {
    &&& play_fits(a.rules, m.agent_a, m.agent_b, m.rounds)
    &&& record_fits(a.scoreboard, played_match(a.rules, m.agent_a, m.agent_b, m.rounds))
}

/// Running a match in an arena, in place (`run_match_mut`) or by value
/// (`play_match`), is `Match::play` under the arena's rules followed by
/// `ScoreBoard::record` and `ArenaSpectator::observe` of the played match;
/// the arena's name, rules and spectator name stay.
pub proof fn lemma_arena_match(a: ArenaView, m: MatchView)
    requires
        match_fits(a, m),
    ensures
        ({
            let (after, played) = after_match(a, m);
            &&& played == played_match(a.rules, m.agent_a, m.agent_b, m.rounds)
            &&& played.finished
            &&& totals_fit(played.results)
            &&& after.name == a.name
            &&& after.rules == a.rules
            &&& after.scoreboard == recorded(a.scoreboard, played)
            &&& after.spectator.name == a.spectator.name
            &&& after.spectator.observations == a.spectator.observations.push(
                observation_of(played),
            )
        }),
{
}

impl Clone for Arena {
    fn clone(&self) -> (c: Self)
        ensures
            c.name == self.name,
            c.rules.table() == self.rules.table(),
            forall|x: Trit, y: Trit| #[trigger] c.rules.payoff(x, y) == self.rules.payoff(x, y),
            c.scoreboard@ == self.scoreboard@,
            c.spectator@ == self.spectator@,
    {
        Arena {
            name: self.name.clone(),
            rules: self.rules.clone(),
            scoreboard: self.scoreboard.clone(),
            spectator: self.spectator.clone(),
        }
    }
}

impl Arena {
    pub fn new(name: &str) -> (a: Self)
        ensures
            a.name@ == name@,
            a.rules.table().dom() == all_pairs(),
            forall|x: Trit, y: Trit| #[trigger] a.rules.table()[(x, y)] == default_payoff(x, y),
            forall|x: Trit, y: Trit| #[trigger] a.rules.payoff(x, y) == default_payoff(x, y),
            a.scoreboard@ == empty_board(),
            a.spectator@.name == "arena-spectator"@,
            a.spectator@.observations == Seq::<MatchObservation>::empty(),
    {
        Arena {
            name: name.to_string(),
            rules: ArenaRules::new(),
            scoreboard: ScoreBoard::new(),
            spectator: ArenaSpectator::new("arena-spectator"),
        }
    }

    pub fn with_rules(name: &str, rules: ArenaRules) -> (a: Self)
        ensures
            a.name@ == name@,
            a.rules == rules,
            a.scoreboard@ == empty_board(),
            a.spectator@.name == "arena-spectator"@,
            a.spectator@.observations == Seq::<MatchObservation>::empty(),
    {
        Arena {
            name: name.to_string(),
            rules,
            scoreboard: ScoreBoard::new(),
            spectator: ArenaSpectator::new("arena-spectator"),
        }
    }

    /// Run a match in-place, recording the result.
    pub fn run_match_mut(&mut self, m: &mut Match)
        requires
            match_fits(old(self)@, old(m)@),
        ensures
            final(m)@ == played_match(
                old(self).rules,
                old(m).agent_a@,
                old(m).agent_b@,
                old(m).rounds,
            ),
            final(self).name == old(self).name,
            final(self).rules == old(self).rules,
            final(self).scoreboard@ == recorded(old(self).scoreboard@, final(m)@),
            final(self).spectator@.name == old(self).spectator@.name,
            final(self).spectator@.observations == old(self).spectator@.observations.push(
                observation_of(final(m)@),
            ),
            (final(self)@, final(m)@) == after_match(old(self)@, old(m)@),
    {
        m.play(&self.rules);
        self.scoreboard.record(m);
        self.spectator.observe(m);
    }

    /// Run a match and return it. Records to scoreboard and spectator.
    pub fn play_match(&mut self, m: Match) -> (played: Match)
        requires
            match_fits(old(self)@, m@),
        ensures
            played@ == played_match(old(self).rules, m.agent_a@, m.agent_b@, m.rounds),
            final(self).name == old(self).name,
            final(self).rules == old(self).rules,
            final(self).scoreboard@ == recorded(old(self).scoreboard@, played@),
            final(self).spectator@.name == old(self).spectator@.name,
            final(self).spectator@.observations == old(self).spectator@.observations.push(
                observation_of(played@),
            ),
            (final(self)@, played@) == after_match(old(self)@, m@),
    {
        let mut m = m;
        m.play(&self.rules);
        self.scoreboard.record(&m);
        self.spectator.observe(&m);
        m
    }

    /// Run a tournament in this arena, recording every match it played.
    pub fn play_tournament(&mut self, tournament: Tournament) -> (champ: Option<u64>)
        requires
            bracket_fits(
                old(self).rules,
                tournament.rounds_per_match,
                agent_views(tournament.agents@),
            ),
            records_fit(
                old(self).scoreboard@,
                bracket(old(self).rules, tournament.rounds_per_match, agent_views(tournament.agents@)),
            ),
        ensures
            champ == champion(
                old(self).rules,
                tournament.rounds_per_match,
                agent_views(tournament.agents@),
            ),
            final(self).name == old(self).name,
            final(self).rules == old(self).rules,
            final(self).scoreboard@ == recorded_all(
                old(self).scoreboard@,
                bracket(old(self).rules, tournament.rounds_per_match, agent_views(tournament.agents@)),
            ),
            final(self).spectator@.name == old(self).spectator@.name,
            final(self).spectator@.observations == old(self).spectator@.observations
                + observations_of(
                bracket(old(self).rules, tournament.rounds_per_match, agent_views(tournament.agents@)),
            ),
    {
        let mut tournament = tournament;
        let champion = tournament.run(&self.rules);
        let ghost ms = match_views(tournament.bracket@);
        let ghost sb0 = self.scoreboard@;
        let ghost obs0 = self.spectator@.observations;
        proof {
            crate::tournament::lemma_bracket_finished(
                self.rules,
                tournament.rounds_per_match,
                agent_views(tournament.agents@),
            );
        }
        let mut i: usize = 0;
        while i < tournament.bracket.len()
            invariant
                0 <= i <= tournament.bracket@.len(),
                ms == match_views(tournament.bracket@),
                ms.len() == tournament.bracket@.len(),
                forall|k: int| 0 <= k < ms.len() ==> #[trigger] ms[k].finished,
                forall|k: int|
                    0 <= k < ms.len() ==> crate::game::totals_fit(#[trigger] ms[k].results),
                records_fit(sb0, ms),
                self.name == old(self).name,
                self.rules == old(self).rules,
                self.scoreboard@ == recorded_all(sb0, ms.take(i as int)),
                self.spectator@.name == old(self).spectator@.name,
                self.spectator@.observations == obs0 + observations_of(ms.take(i as int)),
            decreases tournament.bracket@.len() - i,
        {
            let m = &tournament.bracket[i];
            proof {
                assert(ms[i as int] == m@);
                assert(ms.take(i + 1).drop_last() =~= ms.take(i as int));
                assert(ms.take(i + 1).last() == ms[i as int]);
            }
            self.scoreboard.record(m);
            self.spectator.observe(m);
            proof {
                assert(observations_of(ms.take(i + 1)) =~= observations_of(ms.take(i as int)).push(
                    observation_of(ms[i as int]),
                ));
            }
            i += 1;
        }
        proof {
            assert(ms.take(ms.len() as int) =~= ms);
        }
        champion
    }
}

} // verus!
