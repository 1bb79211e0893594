use vstd::prelude::*;

use crate::trit::{beats, Trit};
use std::collections::HashMap;

verus! {

broadcast use vstd::std_specs::hash::group_hash_axioms;

/// The payoff table of the default rules: 3 to the dominating move, 1 each
/// on a draw, 0 to the dominated move.
pub open spec fn default_payoff(a: Trit, b: Trit) -> i32 {
    if beats(a, b) {
        3
    } else if a == b {
        1
    } else {
        0
    }
}

/// The payoff table of the flat rules: 1 for equal moves, 0 otherwise.
pub open spec fn flat_payoff(a: Trit, b: Trit) -> i32 {
    if a == b {
        1
    } else {
        0
    }
}

spec fn spec_index(t: Trit) -> int {
    match t {
        Trit::Neg => 0,
        Trit::Zero => 1,
        Trit::Pos => 2,
    }
}

/// The key under which the points of the pair `(a, b)` are stored.
spec fn spec_pair_key(a: Trit, b: Trit) -> u8 {
    (3 * spec_index(a) + spec_index(b)) as u8
}

proof fn lemma_pair_key(a: Trit, b: Trit)
    ensures
        spec_pair_key(a, b) == 3 * spec_index(a) + spec_index(b),
        0 <= spec_index(a) < 3,
{
}

/// Distinct pairs are stored under distinct keys.
proof fn lemma_pair_key_injective(a: Trit, b: Trit)
    ensures
        forall|x: Trit, y: Trit|
            #[trigger] spec_pair_key(x, y) == spec_pair_key(a, b) ==> x == a && y == b,
{
    assert forall|x: Trit, y: Trit| #[trigger]
        spec_pair_key(x, y) == spec_pair_key(a, b) implies x == a && y == b by {
        lemma_pair_key(x, y);
        lemma_pair_key(a, b);
        lemma_pair_key(y, x);
        lemma_pair_key(b, a);
    }
}

fn pair_key(a: Trit, b: Trit) -> (k: u8)
    ensures
        k == spec_pair_key(a, b),
{
    let ia: u8 = match a {
        Trit::Neg => 0,
        Trit::Zero => 1,
        Trit::Pos => 2,
    };
    let ib: u8 = match b {
        Trit::Neg => 0,
        Trit::Zero => 1,
        Trit::Pos => 2,
    };
    3 * ia + ib
}

/// The ternary rule system governing how moves resolve: the points an
/// agent earns for each combination (own move, opponent's move). A
/// combination without an entry is worth 1 point.
#[derive(Debug)]
pub struct ArenaRules {
    points: HashMap<u8, i32>,
}

/// The nine combinations of two moves.
pub open spec fn all_pairs() -> Set<(Trit, Trit)> {
    set![
        (Trit::Neg, Trit::Neg),
        (Trit::Neg, Trit::Zero),
        (Trit::Neg, Trit::Pos),
        (Trit::Zero, Trit::Neg),
        (Trit::Zero, Trit::Zero),
        (Trit::Zero, Trit::Pos),
        (Trit::Pos, Trit::Neg),
        (Trit::Pos, Trit::Zero),
        (Trit::Pos, Trit::Pos),
    ]
}

/// There are nine combinations of two moves, and they are all of them.
pub proof fn lemma_all_pairs()
    ensures
        all_pairs().len() == 9,
        forall|a: Trit, b: Trit| #[trigger] all_pairs().contains((a, b)),
{
    assert forall|a: Trit, b: Trit| #[trigger] all_pairs().contains((a, b)) by {
        match a {
            Trit::Neg => match b {
                Trit::Neg => {},
                Trit::Zero => {},
                Trit::Pos => {},
            },
            Trit::Zero => match b {
                Trit::Neg => {},
                Trit::Zero => {},
                Trit::Pos => {},
            },
            Trit::Pos => match b {
                Trit::Neg => {},
                Trit::Zero => {},
                Trit::Pos => {},
            },
        }
    }
}

/// The nine combinations in a fixed order: by the first move, then by the
/// second, each in the order `Neg`, `Zero`, `Pos`.
pub open spec fn pair_order() -> Seq<(Trit, Trit)> {
    seq![
        (Trit::Neg, Trit::Neg),
        (Trit::Neg, Trit::Zero),
        (Trit::Neg, Trit::Pos),
        (Trit::Zero, Trit::Neg),
        (Trit::Zero, Trit::Zero),
        (Trit::Zero, Trit::Pos),
        (Trit::Pos, Trit::Neg),
        (Trit::Pos, Trit::Zero),
        (Trit::Pos, Trit::Pos),
    ]
}

/// The entries of table `t` for the pairs of `ps` that have one, in the
/// order of `ps`.
pub open spec fn entries_in(t: Map<(Trit, Trit), i32>, ps: Seq<(Trit, Trit)>) -> Seq<
    ((Trit, Trit), i32),
>
    decreases ps.len(),
{
    if ps.len() == 0 {
        Seq::empty()
    } else {
        let rest = entries_in(t, ps.drop_last());
        let p = ps.last();
        if t.contains_key(p) {
            rest.push((p, t[p]))
        } else {
            rest
        }
    }
}

proof fn lemma_entries_in(t: Map<(Trit, Trit), i32>, ps: Seq<(Trit, Trit)>)
    requires
        ps.no_duplicates(),
    ensures
        ({
            let es = entries_in(t, ps);
            &&& es.len() <= ps.len()
            &&& forall|j: int|
                0 <= j < es.len() ==> ps.contains(#[trigger] es[j].0) && t.contains_key(es[j].0)
                    && t[es[j].0] == es[j].1
            &&& forall|k: int|
                0 <= k < ps.len() && t.contains_key(#[trigger] ps[k]) ==> es.contains(
                    (ps[k], t[ps[k]]),
                )
            &&& forall|i: int, j: int| 0 <= i < j < es.len() ==> es[i].0 != es[j].0
            &&& (forall|k: int| 0 <= k < ps.len() ==> t.contains_key(#[trigger] ps[k])) ==> es.len()
                == ps.len()
        }),
    decreases ps.len(),
{
    if ps.len() > 0 {
        let init = ps.drop_last();
        let p = ps.last();
        assert(init.no_duplicates());
        lemma_entries_in(t, init);
        let rest = entries_in(t, init);
        let es = entries_in(t, ps);
        assert(!init.contains(p));
        assert forall|j: int| 0 <= j < es.len() implies ps.contains(#[trigger] es[j].0)
            && t.contains_key(es[j].0) && t[es[j].0] == es[j].1 by {
            if j < rest.len() {
                let q = choose|q: int| 0 <= q < init.len() && init[q] == rest[j].0;
                assert(ps[q] == es[j].0);
            } else {
                assert(ps[ps.len() - 1] == p);
            }
        }
        assert forall|k: int| 0 <= k < ps.len() && t.contains_key(#[trigger] ps[k]) implies es.contains(
            (ps[k], t[ps[k]]),
        ) by {
            if k < init.len() {
                assert(init[k] == ps[k]);
                let j = choose|j: int| 0 <= j < rest.len() && rest[j] == (init[k], t[init[k]]);
                assert(es[j] == rest[j]);
            } else {
                assert(es[es.len() - 1] == (p, t[p]));
            }
        }
        assert forall|i: int, j: int| 0 <= i < j < es.len() implies es[i].0 != es[j].0 by {
            if j == rest.len() {
                assert(init.contains(rest[i].0));
            }
        }
        if forall|k: int| 0 <= k < ps.len() ==> t.contains_key(#[trigger] ps[k]) {
            assert forall|k: int| 0 <= k < init.len() implies t.contains_key(#[trigger] init[k]) by {
                assert(init[k] == ps[k]);
            }
            assert(t.contains_key(ps[ps.len() - 1]));
        }
    }
}

/// Listing a table's entries in pair order gives every entry of the table
/// once, each with its points; a table with all nine pairs lists nine.
pub proof fn lemma_entries(t: Map<(Trit, Trit), i32>)
    ensures
        ({
            let es = entries_in(t, pair_order());
            &&& forall|j: int|
                0 <= j < es.len() ==> t.contains_key(#[trigger] es[j].0) && t[es[j].0] == es[j].1
            &&& forall|p: (Trit, Trit)| #[trigger] t.contains_key(p) ==> es.contains((p, t[p]))
            &&& forall|i: int, j: int| 0 <= i < j < es.len() ==> es[i].0 != es[j].0
            &&& t.dom() == all_pairs() ==> es.len() == 9
        }),
{
    let ps = pair_order();
    lemma_all_pairs();
    assert(ps.no_duplicates());
    lemma_entries_in(t, ps);
    assert forall|p: (Trit, Trit)| #[trigger] t.contains_key(p) implies entries_in(t, ps).contains(
        (p, t[p]),
    ) by {
        let k: int = spec_pair_key(p.0, p.1) as int;
        lemma_pair_key(p.0, p.1);
        assert(ps[k] == p);
    }
    if t.dom() == all_pairs() {
        assert forall|k: int| 0 <= k < ps.len() implies t.contains_key(#[trigger] ps[k]) by {
            assert(all_pairs().contains(ps[k]));
        }
    }
}

impl ArenaRules {
    /// The stored payoff table: the points for each combination (own move,
    /// opponent's move) that has an entry.
    pub closed spec fn table(&self) -> Map<(Trit, Trit), i32> {
        Map::new(
            |p: (Trit, Trit)| self.points@.contains_key(spec_pair_key(p.0, p.1)),
            |p: (Trit, Trit)| self.points@[spec_pair_key(p.0, p.1)],
        )
    }

    /// Points an agent playing `a` earns against an opponent playing `b`:
    /// the table's entry, or 1 where the table has none.
    pub open spec fn payoff(&self, a: Trit, b: Trit) -> i32 {
        if self.table().contains_key((a, b)) {
            self.table()[(a, b)]
        } else {
            1
        }
    }

    /// Rock-paper-scissors style: Pos beats Neg, Neg beats Zero, Zero beats Pos.
    pub fn new() -> (r: Self)
        ensures
            r.table().dom() == all_pairs(),
            forall|a: Trit, b: Trit| #[trigger] r.table()[(a, b)] == default_payoff(a, b),
            forall|a: Trit, b: Trit| #[trigger] r.payoff(a, b) == default_payoff(a, b),
    {
        let mut points: HashMap<u8, i32> = HashMap::new();
        points.insert(pair_key(Trit::Pos, Trit::Neg), 3);
        points.insert(pair_key(Trit::Neg, Trit::Zero), 3);
        points.insert(pair_key(Trit::Zero, Trit::Pos), 3);
        points.insert(pair_key(Trit::Pos, Trit::Pos), 1);
        points.insert(pair_key(Trit::Neg, Trit::Neg), 1);
        points.insert(pair_key(Trit::Zero, Trit::Zero), 1);
        points.insert(pair_key(Trit::Pos, Trit::Zero), 0);
        points.insert(pair_key(Trit::Neg, Trit::Pos), 0);
        points.insert(pair_key(Trit::Zero, Trit::Neg), 0);
        let r = ArenaRules { points };
        proof {
            lemma_all_pairs();
            assert forall|a: Trit, b: Trit| #[trigger] r.payoff(a, b) == default_payoff(a, b) by {
                assert(r.points@.contains_key(spec_pair_key(a, b)));
            }
            assert(r.table().dom() =~= all_pairs());
        }
        r
    }

    /// Resolve one round: the points of the agent playing `a` and of the
    /// agent playing `b`.
    pub fn resolve(&self, a: Trit, b: Trit) -> (res: (i32, i32))
        ensures
            res == (self.payoff(a, b), self.payoff(b, a)),
    {
        let a_pts = match self.points.get(&pair_key(a, b)) {
            Some(p) => *p,
            None => 1,
        };
        let b_pts = match self.points.get(&pair_key(b, a)) {
            Some(p) => *p,
            None => 1,
        };
        (a_pts, b_pts)
    }

    /// Create rules where same move always draws (flat rules).
    pub fn flat() -> (r: Self)
        ensures
            r.table().dom() == all_pairs(),
            forall|a: Trit, b: Trit| #[trigger] r.table()[(a, b)] == flat_payoff(a, b),
            forall|a: Trit, b: Trit| #[trigger] r.payoff(a, b) == flat_payoff(a, b),
    {
        let mut points: HashMap<u8, i32> = HashMap::new();
        let all = [Trit::Neg, Trit::Zero, Trit::Pos];
        let mut i: usize = 0;
        while i < 3
            invariant
                0 <= i <= 3,
                forall|k: int| 0 <= k < 3 ==> spec_index(#[trigger] all@[k]) == k,
                forall|a: Trit, b: Trit|
                    spec_index(a) < i ==> #[trigger] points@.contains_key(spec_pair_key(a, b))
                        && points@[spec_pair_key(a, b)] == flat_payoff(a, b),
            decreases 3 - i,
        {
            proof {
                assert forall|x: Trit| spec_index(x) < 3 by {
                    lemma_pair_key(x, x);
                }
            }
            let mut j: usize = 0;
            while j < 3
                invariant
                    0 <= i < 3,
                    0 <= j <= 3,
                    forall|k: int| 0 <= k < 3 ==> spec_index(#[trigger] all@[k]) == k,
                    forall|a: Trit, b: Trit|
                        spec_index(a) < i || (spec_index(a) == i && spec_index(b) < j)
                            ==> #[trigger] points@.contains_key(spec_pair_key(a, b))
                            && points@[spec_pair_key(a, b)] == flat_payoff(a, b),
                decreases 3 - j,
            {
                let a = all[i];
                let b = all[j];
                let pts: i32 = if a == b {
                    1
                } else {
                    0
                };
                let ghost before = points@;
                points.insert(pair_key(a, b), pts);
                proof {
                    lemma_pair_key_injective(a, b);
                    assert forall|x: Trit, y: Trit|
                        spec_index(x) < i || (spec_index(x) == i && spec_index(y) < j + 1)
                        implies #[trigger] points@.contains_key(spec_pair_key(x, y))
                        && points@[spec_pair_key(x, y)] == flat_payoff(x, y) by {
                        if x != a || y != b {
                            assert(before.contains_key(spec_pair_key(x, y)));
                        }
                    }
                }
                j += 1;
            }
            i += 1;
        }
        let r = ArenaRules { points };
        proof {
            lemma_all_pairs();
            assert forall|x: Trit| spec_index(x) < 3 by {
                lemma_pair_key(x, x);
            }
            assert(r.table().dom() =~= all_pairs());
        }
        r
    }

    /// Every entry of the table with its points, in pair order.
    pub fn entries(&self) -> (es: Vec<((Trit, Trit), i32)>)
        ensures
            es@ == entries_in(self.table(), pair_order()),
    {
        let order = [
            (Trit::Neg, Trit::Neg),
            (Trit::Neg, Trit::Zero),
            (Trit::Neg, Trit::Pos),
            (Trit::Zero, Trit::Neg),
            (Trit::Zero, Trit::Zero),
            (Trit::Zero, Trit::Pos),
            (Trit::Pos, Trit::Neg),
            (Trit::Pos, Trit::Zero),
            (Trit::Pos, Trit::Pos),
        ];
        assert(order@ == pair_order());
        let mut es: Vec<((Trit, Trit), i32)> = Vec::new();
        let mut i: usize = 0;
        while i < 9
            invariant
                0 <= i <= 9,
                order@ == pair_order(),
                es@ == entries_in(self.table(), pair_order().take(i as int)),
            decreases 9 - i,
        {
            let (a, b) = order[i];
            proof {
                assert(pair_order().take(i + 1).drop_last() =~= pair_order().take(i as int));
                assert(pair_order().take(i + 1).last() == (a, b));
            }
            match self.points_for(a, b) {
                Some(v) => es.push(((a, b), v)),
                None => {},
            }
            i += 1;
        }
        proof {
            assert(pair_order().take(9) =~= pair_order());
        }
        es
    }

    /// The table's entry for `(a, b)`, if it has one.
    pub fn points_for(&self, a: Trit, b: Trit) -> (p: Option<i32>)
        ensures
            p == (if self.table().contains_key((a, b)) {
                Some(self.table()[(a, b)])
            } else {
                None
            }),
    {
        match self.points.get(&pair_key(a, b)) {
            Some(v) => Some(*v),
            None => None,
        }
    }

    /// Remove the table's entry for `(a, b)`, returning it; the combination
    /// is then worth 1 point.
    pub fn remove_points(&mut self, a: Trit, b: Trit) -> (p: Option<i32>)
        ensures
            final(self).table() == old(self).table().remove((a, b)),
            p == (if old(self).table().contains_key((a, b)) {
                Some(old(self).table()[(a, b)])
            } else {
                None
            }),
    {
        let p = self.points.remove(&pair_key(a, b));
        proof {
            lemma_pair_key_injective(a, b);
            assert(self.table() =~= old(self).table().remove((a, b)));
        }
        p
    }

    /// Set the points an agent playing `a` earns against an opponent
    /// playing `b`.
    pub fn set_points(&mut self, a: Trit, b: Trit, pts: i32)
        ensures
            final(self).table() == old(self).table().insert((a, b), pts),
            forall|x: Trit, y: Trit|
                #[trigger] final(self).payoff(x, y) == if x == a && y == b {
                    pts
                } else {
                    old(self).payoff(x, y)
                },
    {
        self.points.insert(pair_key(a, b), pts);
        proof {
            lemma_pair_key_injective(a, b);
            assert(self.table() =~= old(self).table().insert((a, b), pts));
        }
    }
}

impl Clone for ArenaRules {
    fn clone(&self) -> (c: Self)
        ensures
            c.table() == self.table(),
            forall|a: Trit, b: Trit| #[trigger] c.payoff(a, b) == self.payoff(a, b),
    {
        let c = ArenaRules { points: self.points.clone() };
        assert(c.table() =~= self.table());
        c
    }
}

impl Default for ArenaRules {
    fn default() -> (r: Self)
        ensures
            r.table().dom() == all_pairs(),
            forall|a: Trit, b: Trit| #[trigger] r.table()[(a, b)] == default_payoff(a, b),
            forall|a: Trit, b: Trit| #[trigger] r.payoff(a, b) == default_payoff(a, b),
    {
        Self::new()
    }
}

/// Under the default payoff table every round resolves to `(3, 0)` when the
/// first move dominates, `(1, 1)` on equal moves and `(0, 3)` when the second
/// move dominates: a decisive round hands out 3 points, a drawn one 2.
pub proof fn lemma_default_round(rules: ArenaRules, a: Trit, b: Trit)
    requires
        forall|x: Trit, y: Trit| #[trigger] rules.payoff(x, y) == default_payoff(x, y),
    ensures
        beats(a, b) ==> (rules.payoff(a, b), rules.payoff(b, a)) == (3i32, 0i32),
        a == b ==> (rules.payoff(a, b), rules.payoff(b, a)) == (1i32, 1i32),
        beats(b, a) ==> (rules.payoff(a, b), rules.payoff(b, a)) == (0i32, 3i32),
        rules.payoff(a, b) + rules.payoff(b, a) == if a == b {
            2int
        } else {
            3int
        },
{
    assert(rules.payoff(a, b) == default_payoff(a, b));
    assert(rules.payoff(b, a) == default_payoff(b, a));
}

} // verus!
