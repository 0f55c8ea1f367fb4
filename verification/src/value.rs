use vstd::prelude::*;

verus! {

/// The score of a position from the point of view of the player to move.
///
/// Scores are centipawns, except near the ends of the range: `from_inf(n)` is a
/// forced mate in `n` moves for the player to move, `from_neg_inf(n)` a forced mate
/// against them in `n` moves. `i16::MIN` is never a score, so every score can be negated.
#[derive(Clone, Copy, Debug, PartialEq, Eq, Structural)]
pub struct Value(i16);

/// The number of moves up to which a score counts as a mate score.
pub const MATE_RANGE: i16 = 100;

impl View for Value {
    type V = int;

    closed spec fn view(&self) -> int {
        self.0 as int
    }
}

impl Value {
    #[verifier::type_invariant]
    spec fn inv(self) -> bool {
        self.0 != i16::MIN
    }

    /// The score whose view is `x`.
    pub closed spec fn spec_of(x: int) -> Value {
        Value(x as i16)
    }

    /// A score is the one of its view.
    pub proof fn lemma_spec_of(v: Value)
        ensures
            v == Value::spec_of(v@),
            Value::spec_of(v@)@ == v@,
    {
    }

    /// A score of `cp` centipawns.
    pub fn from_cp(cp: i16) -> (r: Value)
        requires
            cp != i16::MIN,
        ensures
            r@ == cp,
    {
        Value(cp)
    }

    /// A forced mate against the player to move in `moves` moves.
    pub fn from_neg_inf(moves: u16) -> (r: Value)
        requires
            moves <= i16::MAX,
        ensures
            r@ == i16::MIN + 1 + moves,
    {
        Value(i16::MIN + 1 + moves as i16)
    }

    /// A forced mate for the player to move in `moves` moves.
    pub fn from_inf(moves: u16) -> (r: Value)
        requires
            moves <= i16::MAX,
        ensures
            r@ == i16::MAX - moves,
    {
        Value(i16::MAX - moves as i16)
    }

    /// The raw score.
    pub fn raw(self) -> (r: i16)
        ensures
            r == self@,
            r != i16::MIN,
    {
        proof {
            use_type_invariant(self);
        }
        self.0
    }

    /// The score from the point of view of the other player.
    pub fn neg(self) -> (r: Value)
        ensures
            r@ == -self@,
    {
        proof {
            use_type_invariant(self);
        }
        Value(-self.0)
    }

    /// Whether `self` is a worse score than `other`.
    pub fn lt(self, other: Value) -> (r: bool)
        ensures
            r == (self@ < other@),
    {
        self.0 < other.0
    }

    /// Whether `self` is a score no better than `other`.
    pub fn le(self, other: Value) -> (r: bool)
        ensures
            r == (self@ <= other@),
    {
        self.0 <= other.0
    }

    /// The better of two scores.
    pub fn max(self, other: Value) -> (r: Value)
        ensures
            r@ == if self@ >= other@ { self@ } else { other@ },
    {
        if self.0 >= other.0 {
            self
        } else {
            other
        }
    }

    /// The worse of two scores.
    pub fn min(self, other: Value) -> (r: Value)
        ensures
            r@ == if self@ <= other@ { self@ } else { other@ },
    {
        if self.0 <= other.0 {
            self
        } else {
            other
        }
    }

    /// If the score is a forced mate for the player to move, the number of moves.
    pub fn mate_in(self) -> (r: Option<i16>)
        ensures
            r is Some <==> i16::MAX - MATE_RANGE <= self@,
            r is Some ==> r->0 == i16::MAX - self@,
    {
        if self.0 >= i16::MAX - MATE_RANGE {
            Some(i16::MAX - self.0)
        } else {
            None
        }
    }

    /// If the score is a forced mate against the player to move, the number of moves.
    pub fn mated_in(self) -> (r: Option<i16>)
        ensures
            r is Some <==> self@ <= i16::MIN + 1 + MATE_RANGE,
            r is Some ==> r->0 == self@ - i16::MIN - 1,
    {
        proof {
            use_type_invariant(self);
        }
        if self.0 <= i16::MIN + 1 + MATE_RANGE {
            Some(self.0 - i16::MIN - 1)
        } else {
            None
        }
    }
}


/// The character of decimal digit `d`.
pub open spec fn digit_char(d: int) -> char {
    ('0' as int + d) as char
}

/// The decimal digits of `n`.
pub open spec fn decimal(n: nat) -> Seq<char>
    decreases n,
{
    if n < 10 {
        seq![digit_char(n as int)]
    } else {
        decimal(n / 10).push(digit_char((n % 10) as int))
    }
}

/// The text of a score with view `v`: `mate n` for a forced mate in `n` moves, `mate -n`
/// for one against the player to move, else `cp` and the centipawns.
pub open spec fn value_text(v: int) -> Seq<char> {
    if v >= i16::MAX - MATE_RANGE {
        "mate "@ + decimal((i16::MAX - v) as nat)
    } else if v <= i16::MIN + 1 + MATE_RANGE {
        "mate -"@ + decimal((v - i16::MIN - 1) as nat)
    } else if v < 0 {
        "cp -"@ + decimal((-v) as nat)
    } else {
        "cp "@ + decimal(v as nat)
    }
}

/// The one-character string of digit `d`.
fn digit_str(d: u16) -> (r: &'static str)
    requires
        d < 10,
    ensures
        r@ == seq![digit_char(d as int)],
{
    match d {
        0 => {
            proof {
                reveal_strlit("0");
            }
            "0"
        },
        1 => {
            proof {
                reveal_strlit("1");
            }
            "1"
        },
        2 => {
            proof {
                reveal_strlit("2");
            }
            "2"
        },
        3 => {
            proof {
                reveal_strlit("3");
            }
            "3"
        },
        4 => {
            proof {
                reveal_strlit("4");
            }
            "4"
        },
        5 => {
            proof {
                reveal_strlit("5");
            }
            "5"
        },
        6 => {
            proof {
                reveal_strlit("6");
            }
            "6"
        },
        7 => {
            proof {
                reveal_strlit("7");
            }
            "7"
        },
        8 => {
            proof {
                reveal_strlit("8");
            }
            "8"
        },
        9 => {
            proof {
                reveal_strlit("9");
            }
            "9"
        },
        _ => {
            proof {
                reveal_strlit("9");
            }
            "9"
        },
    }
}

/// Appends the decimal digits of `n` to `s`.
fn append_decimal(s: &mut String, n: u16)
    ensures
        final(s)@ == old(s)@ + decimal(n as nat),
    decreases n,
{
    let ghost s0 = s@;
    if n >= 10 {
        append_decimal(s, n / 10);
    }
    let ghost s1 = s@;
    s.append(digit_str(n % 10));
    proof {
        if n >= 10 {
            assert(s@ =~= s0 + decimal(n as nat));
        } else {
            assert(s1 == s0);
            assert(s@ =~= s0 + decimal(n as nat));
        }
    }
}

impl Value {
    /// The score as text (see `value_text`).
    pub fn to_text(self) -> (r: String)
        ensures
            r@ == value_text(self@),
    {
        proof {
            use_type_invariant(self);
        }
        let v = self.0;
        let mut r;
        if v >= i16::MAX - MATE_RANGE {
            r = String::from_str("mate ");
            append_decimal(&mut r, (i16::MAX - v) as u16);
        } else if v <= i16::MIN + 1 + MATE_RANGE {
            r = String::from_str("mate -");
            append_decimal(&mut r, (v - i16::MIN - 1) as u16);
        } else if v < 0 {
            r = String::from_str("cp -");
            append_decimal(&mut r, (-v) as u16);
        } else {
            r = String::from_str("cp ");
            append_decimal(&mut r, v as u16);
        }
        r
    }
}

} // verus!
