use vstd::prelude::*;

use crate::trit::Trit;

verus! {

broadcast use vstd::string::to_string_from_display_ensures_for_str;

/// An agent with a name and a strategy (a sequence of trit moves).
#[derive(Debug)]
pub struct Agent {
    pub id: u64,
    pub name: String,
    pub strategy: Vec<Trit>,
}

/// What an agent is, as a mathematical value.
#[verifier::ext_equal]
pub struct AgentView {
    pub id: u64,
    pub name: Seq<char>,
    pub strategy: Seq<Trit>,
}

impl View for Agent {
    type V = AgentView;

    open spec fn view(&self) -> AgentView {
        AgentView { id: self.id, name: self.name@, strategy: self.strategy@ }
    }
}

/// The move a strategy plays in a given round: strategies wrap cyclically,
/// and an empty strategy always plays `Zero`.
pub open spec fn strategy_move(strategy: Seq<Trit>, round: int) -> Trit {
    if strategy.len() == 0 {
        Trit::Zero
    } else {
        strategy[round % (strategy.len() as int)]
    }
}

impl Agent {
    pub fn new(id: u64, name: &str, strategy: Vec<Trit>) -> (a: Self)
        ensures
            a.id == id,
            a.name@ == name@,
            a.strategy@ == strategy@,
    {
        Agent { id, name: name.to_string(), strategy }
    }

    pub fn move_at(&self, round: usize) -> (t: Trit)
        ensures
            t == strategy_move(self.strategy@, round as int),
    {
        if self.strategy.len() == 0 {
            return Trit::Zero;
        }
        self.strategy[round % self.strategy.len()]
    }

    pub fn strategy_len(&self) -> (n: usize)
        ensures
            n == self.strategy@.len(),
    {
        self.strategy.len()
    }
}

impl Clone for Agent {
    fn clone(&self) -> (c: Self)
        ensures
            c@ == self@,
    {
        let strategy = self.strategy.clone();
        assert(strategy@ =~= self.strategy@);
        Agent { id: self.id, name: self.name.clone(), strategy }
    }
}

/// The move of round `r` is the strategy's entry at `r` modulo its length
/// (so the first rounds read the strategy front to back); an empty strategy
/// always plays `Zero`.
pub proof fn lemma_strategy_move(strategy: Seq<Trit>, r: int)
    requires
        0 <= r,
    ensures
        strategy.len() == 0 ==> strategy_move(strategy, r) == Trit::Zero,
        strategy.len() > 0 ==> strategy_move(strategy, r) == strategy[r % (strategy.len() as int)],
        r < strategy.len() ==> strategy_move(strategy, r) == strategy[r],
{
    if r < strategy.len() {
        vstd::arithmetic::div_mod::lemma_small_mod(r as nat, strategy.len());
    }
}

/// A strategy repeats with its own length as period.
pub proof fn lemma_strategy_wraps(strategy: Seq<Trit>, round: nat)
    ensures
        strategy_move(strategy, round + strategy.len() as int) == strategy_move(strategy, round as int),
{
    if strategy.len() > 0 {
        let n = strategy.len() as int;
        vstd::arithmetic::div_mod::lemma_mod_add_multiples_vanish(round as int, n);
    }
}

} // verus!
