//! The score and the two labels that show it.
use vstd::prelude::*;
use vstd::string::StringExecFns;

verus! {

/// What the player has achieved so far.
#[derive(Clone, Copy, Debug, PartialEq, Eq, Structural)]
pub struct Score {
    /// Pickups collected.
    pub cheese: u64,
    /// Current level, counted from one.
    pub level: u64,
}

impl Default for Score {
    fn default() -> (s: Score)
        ensures
            s == (Score { cheese: 0, level: 1 }),
    {
        Score { cheese: 0, level: 1 }
    }
}

/// The character of a decimal digit.
pub open spec fn digit(d: int) -> char {
    if d == 0 {
        '0'
    } else if d == 1 {
        '1'
    } else if d == 2 {
        '2'
    } else if d == 3 {
        '3'
    } else if d == 4 {
        '4'
    } else if d == 5 {
        '5'
    } else if d == 6 {
        '6'
    } else if d == 7 {
        '7'
    } else if d == 8 {
        '8'
    } else {
        '9'
    }
}

/// The decimal numeral of `n`, without leading zeros.
pub open spec fn decimal(n: nat) -> Seq<char>
    decreases n,
{
    if n < 10 {
        seq![digit(n as int)]
    } else {
        decimal(n / 10).push(digit((n % 10) as int))
    }
}

/// The text of the label that shows the collected pickups.
pub open spec fn cheese_text(score: Score) -> Seq<char> {
    seq!['C', 'h', 'e', 'e', 's', 'e', ':', ' '] + decimal(score.cheese as nat)
}

/// The text of the label that shows the level.
pub open spec fn level_text(score: Score) -> Seq<char> {
    seq!['L', 'e', 'v', 'e', 'l', ':', ' '] + decimal(score.level as nat)
}

fn digit_str(d: u64) -> (s: &'static str)
    requires
        d < 10,
    ensures
        s@ == seq![digit(d as int)],
{
    let s = match d {
        0 => {
            proof {
                reveal_strlit("0");
            }
            "0"
        },
        1 => {
            proof {
                reveal_strlit("1");
            }
            "1"
        },
        2 => {
            proof {
                reveal_strlit("2");
            }
            "2"
        },
        3 => {
            proof {
                reveal_strlit("3");
            }
            "3"
        },
        4 => {
            proof {
                reveal_strlit("4");
            }
            "4"
        },
        5 => {
            proof {
                reveal_strlit("5");
            }
            "5"
        },
        6 => {
            proof {
                reveal_strlit("6");
            }
            "6"
        },
        7 => {
            proof {
                reveal_strlit("7");
            }
            "7"
        },
        8 => {
            proof {
                reveal_strlit("8");
            }
            "8"
        },
        _ => {
            proof {
                reveal_strlit("9");
            }
            "9"
        },
    };
    assert(s@ =~= seq![digit(d as int)]);
    s
}

fn push_decimal(text: &mut String, n: u64)
    ensures
        final(text)@ == old(text)@ + decimal(n as nat),
    decreases n,
{
    if n >= 10 {
        push_decimal(text, n / 10);
    }
    let ghost front = text@;
    text.append(digit_str(n % 10));
    proof {
        if n >= 10 {
            assert(text@ =~= old(text)@ + decimal((n / 10) as nat).push(digit((n % 10) as int)));
        } else {
            assert(text@ =~= old(text)@ + seq![digit(n as int)]);
        }
    }
}

/// The texts of the two score labels, the pickups first and the level
/// second.
pub fn scoreboard(score: &Score) -> (labels: (String, String))
    ensures
        labels.0@ == cheese_text(*score),
        labels.1@ == level_text(*score),
{
    proof {
        reveal_strlit("Cheese: ");
        reveal_strlit("Level: ");
    }
    let mut cheese = String::from_str("Cheese: ");
    assert(cheese@ =~= seq!['C', 'h', 'e', 'e', 's', 'e', ':', ' ']);
    push_decimal(&mut cheese, score.cheese);
    let mut level = String::from_str("Level: ");
    assert(level@ =~= seq!['L', 'e', 'v', 'e', 'l', ':', ' ']);
    push_decimal(&mut level, score.level);
    (cheese, level)
}

} // verus!
