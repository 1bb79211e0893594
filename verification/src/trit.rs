use vstd::prelude::*;

verus! {

/// A single balanced ternary value: -1, 0, or +1.
#[derive(Clone, Copy, Debug, PartialEq, Eq, Hash, Structural)]
pub enum Trit {
    Neg,
    Zero,
    Pos,
}

/// The integer a trit stands for.
pub open spec fn trit_value(t: Trit) -> i8 {
    match t {
        Trit::Neg => -1i8,
        Trit::Zero => 0i8,
        Trit::Pos => 1i8,
    }
}

/// The trit an integer stands for, if it is one of -1, 0, 1.
pub open spec fn trit_from_value(v: i8) -> Option<Trit> {
    if v == -1 {
        Some(Trit::Neg)
    } else if v == 0 {
        Some(Trit::Zero)
    } else if v == 1 {
        Some(Trit::Pos)
    } else {
        None
    }
}

/// Cyclic dominance: `Pos` beats `Neg`, `Neg` beats `Zero`, `Zero` beats `Pos`.
pub open spec fn beats(a: Trit, b: Trit) -> bool {
    ||| a == Trit::Pos && b == Trit::Neg
    ||| a == Trit::Neg && b == Trit::Zero
    ||| a == Trit::Zero && b == Trit::Pos
}

impl Trit {
    pub fn value(self) -> (v: i8)
        ensures
            v == trit_value(self),
    {
        match self {
            Trit::Neg => -1,
            Trit::Zero => 0,
            Trit::Pos => 1,
        }
    }

    pub fn from_i8(v: i8) -> (t: Option<Self>)
        ensures
            t == trit_from_value(v),
    {
        match v {
            -1 => Some(Trit::Neg),
            0 => Some(Trit::Zero),
            1 => Some(Trit::Pos),
            _ => None,
        }
    }
}

/// Reading a trit's value back gives the trit; a value that reads as a
/// trit is that trit's value.
pub proof fn lemma_value_round_trip(t: Trit, v: i8)
    ensures
        trit_from_value(trit_value(t)) == Some(t),
        trit_from_value(v) == Some(t) ==> trit_value(t) == v,
        trit_from_value(v) is Some <==> -1 <= v <= 1,
{
}

/// Dominance is a cycle: between any two moves exactly one of "the first
/// beats the second", "they are equal", "the second beats the first"
/// holds, and every move is beaten by some move (no pure strategy is
/// unbeatable).
pub proof fn lemma_cyclic_dominance(a: Trit, b: Trit)
    ensures
        (beats(a, b) as int) + ((a == b) as int) + (beats(b, a) as int) == 1,
        !beats(a, a),
        exists|c: Trit| beats(c, a),
{
    let c = match a {
        Trit::Neg => Trit::Pos,
        Trit::Zero => Trit::Neg,
        Trit::Pos => Trit::Zero,
    };
    assert(beats(c, a));
}

} // verus!
