//! Scoring for rock-paper-scissors rounds read from a strategy guide.
//!
//! A line names the opponent's choice (`A`, `B`, `C`) and the round's desired
//! outcome (`X` lose, `Y` draw, `Z` win); parsing resolves the second column
//! into the choice that produces that outcome.

use vstd::prelude::*;
use vstd::string::StringSliceAdditionalSpecFns;

verus! {

/// One hand shape.
#[derive(Copy, Debug, Clone, PartialEq, Eq, Structural)]
pub enum Choice {
    Rock,
    Paper,
    Scissors,
}

/// The result of a round, seen from the left player.
#[derive(Copy, Debug, Clone, PartialEq, Eq, Structural)]
pub enum Outcome {
    Win,
    Lose,
    Tie,
}

/// One round: the opponent's choice and ours.
pub type Game = (Choice, Choice);

/// The position of a choice in the cycle rock, paper, scissors.
pub open spec fn choice_index(c: Choice) -> int {
    match c {
        Choice::Rock => 0,
        Choice::Paper => 1,
        Choice::Scissors => 2,
    }
}

/// The choice that `c` defeats: one step back in the cycle.
pub open spec fn beats(c: Choice) -> Choice {
    match c {
        Choice::Rock => Choice::Scissors,
        Choice::Paper => Choice::Rock,
        Choice::Scissors => Choice::Paper,
    }
}

/// The choice that defeats `c`: one step forward in the cycle.
pub open spec fn beaten_by(c: Choice) -> Choice {
    match c {
        Choice::Rock => Choice::Paper,
        Choice::Paper => Choice::Scissors,
        Choice::Scissors => Choice::Rock,
    }
}

/// The outcome of playing `c` against `other`, seen from `c`.
pub open spec fn play_spec(c: Choice, other: Choice) -> Outcome {
    if c == other {
        Outcome::Tie
    } else if beaten_by(c) == other {
        Outcome::Lose
    } else {
        Outcome::Win
    }
}

/// The score a choice is worth on its own.
pub open spec fn choice_value(c: Choice) -> int {
    match c {
        Choice::Rock => 1,
        Choice::Paper => 2,
        Choice::Scissors => 3,
    }
}

/// Both players' scores for one round: choice value plus six for a win and
/// three for a tie.
pub open spec fn score_spec(game: Game) -> (int, int) {
    let left = choice_value(game.0);
    let right = choice_value(game.1);
    match play_spec(game.0, game.1) {
        Outcome::Tie => (left + 3, right + 3),
        Outcome::Win => (left + 6, right),
        Outcome::Lose => (left, right + 6),
    }
}

impl Choice {
    /// The position of this choice in the cycle rock, paper, scissors.
    pub fn winners_index(self) -> (r: usize)
        ensures
            r == choice_index(self),
    {
        match self {
            Choice::Rock => 0,
            Choice::Paper => 1,
            Choice::Scissors => 2,
        }
    }

    /// The choice this one defeats.
    pub fn would_beat(self) -> (r: Choice)
        ensures
            r == beats(self),
    {
        match self {
            Choice::Rock => Choice::Scissors,
            Choice::Paper => Choice::Rock,
            Choice::Scissors => Choice::Paper,
        }
    }

    /// The choice this one is defeated by.
    pub fn would_lose_to(self) -> (r: Choice)
        ensures
            r == beaten_by(self),
    {
        match self {
            Choice::Rock => Choice::Paper,
            Choice::Paper => Choice::Scissors,
            Choice::Scissors => Choice::Rock,
        }
    }

    /// The outcome of playing this choice against `other`.
    pub fn play(self, other: Self) -> (r: Outcome)
        ensures
            r == play_spec(self, other),
    {
        if self == other {
            return Outcome::Tie;
        } else if self.would_lose_to() == other {
            return Outcome::Lose;
        }
        Outcome::Win
    }

    /// The score this choice is worth on its own.
    pub fn value(&self) -> (r: usize)
        ensures
            r == choice_value(*self),
    {
        match self {
            Choice::Rock => 1,
            Choice::Paper => 2,
            Choice::Scissors => 3,
        }
    }
}

/// Both players' scores for one round.
pub fn score(game: &Game) -> (r: (usize, usize))
    ensures
        (r.0 as int, r.1 as int) == score_spec(*game),
{
    let left = game.0.value();
    let right = game.1.value();
    match game.0.play(game.1) {
        Outcome::Tie => (left + 3, right + 3),
        Outcome::Win => (left + 6, right),
        Outcome::Lose => (left, right + 6),
    }
}

/// Why a strategy line was rejected.
#[derive(Copy, Debug, Clone, PartialEq, Eq, Structural)]
pub enum RpsError {
    /// The line has no second column.
    MissingColumn,
    /// The first column is not `A`, `B` or `C`.
    BadLeft,
    /// The second column is not `X`, `Y` or `Z`.
    BadRight,
}

/// The first space-separated token of `s` and what follows it, if a space occurs.
pub open spec fn first_token(s: Seq<u8>) -> (Seq<u8>, Option<Seq<u8>>) {
    match crate::text::find_first(s, 32) {
        Some(i) => (s.take(i), Some(s.skip(i + 1))),
        None => (s, None),
    }
}

/// Whether a token is the single byte `b`.
pub open spec fn tok_is(t: Seq<u8>, b: u8) -> bool {
    t.len() == 1 && t[0] == b
}

/// The game a trimmed strategy line denotes.
pub open spec fn parse_line_spec(t: Seq<u8>) -> Result<Game, RpsError> {
    let (tok0, rest) = first_token(t);
    match rest {
        None => Err(RpsError::MissingColumn),
        Some(r) => {
            let tok1 = first_token(r).0;
            if !(tok_is(tok0, 65) || tok_is(tok0, 66) || tok_is(tok0, 67)) {
                Err(RpsError::BadLeft)
            } else {
                let left = if tok_is(tok0, 65) {
                    Choice::Rock
                } else if tok_is(tok0, 66) {
                    Choice::Paper
                } else {
                    Choice::Scissors
                };
                if tok_is(tok1, 88) {
                    Ok((left, beats(left)))
                } else if tok_is(tok1, 89) {
                    Ok((left, left))
                } else if tok_is(tok1, 90) {
                    Ok((left, beaten_by(left)))
                } else {
                    Err(RpsError::BadRight)
                }
            }
        },
    }
}

/// Parses one strategy line, whitespace-trimmed: opponent's choice from the
/// first column, our choice resolved from the desired outcome in the second.
pub fn parse_line(line: &str) -> (r: Result<Game, RpsError>)
    ensures
        r == parse_line_spec(crate::text::trim_spec(line.spec_bytes())),
{
    let bytes = line.as_bytes_vec();
    let t = crate::text::trim(&bytes);
    let sp = match crate::text::find_byte(&t, 32) {
        Some(i) => i,
        None => {
            return Err(RpsError::MissingColumn);
        },
    };
    proof {
        crate::text::lemma_find_first(t@, 32);
    }
    let left = if sp == 1 && t[0] == 65 {
        Choice::Rock
    } else if sp == 1 && t[0] == 66 {
        Choice::Paper
    } else if sp == 1 && t[0] == 67 {
        Choice::Scissors
    } else {
        proof {
            let tok0 = first_token(t@).0;
            assert(tok0 == t@.take(sp as int));
            assert(tok0.len() == sp);
            if sp == 1 {
                assert(tok0[0] == t@[0]);
            }
        }
        return Err(RpsError::BadLeft);
    };
    proof {
        assert(first_token(t@).0.len() == 1 && first_token(t@).0[0] == t@[0]);
    }
    let rest_len = t.len() - (sp + 1);
    let ghost rest = t@.skip(sp + 1);
    let sp2 = match crate::text::find_byte_from(&t, sp + 1, 32) {
        Some(i) => i - (sp + 1),
        None => rest_len,
    };
    proof {
        assert(first_token(rest).0 == if crate::text::find_first(rest, 32) is Some {
            rest.take(crate::text::find_first(rest, 32).unwrap())
        } else {
            rest
        });
    }
    let right = if sp2 == 1 && t[sp + 1] == 88 {
        left.would_beat()
    } else if sp2 == 1 && t[sp + 1] == 89 {
        left
    } else if sp2 == 1 && t[sp + 1] == 90 {
        left.would_lose_to()
    } else {
        proof {
            let tok1 = first_token(rest).0;
            assert(tok1.len() == sp2);
            if sp2 == 1 {
                assert(tok1[0] == rest[0] && rest[0] == t@[sp + 1]);
            }
        }
        return Err(RpsError::BadRight);
    };
    proof {
        let tok1 = first_token(rest).0;
        assert(tok1.len() == sp2 && tok1[0] == rest[0] && rest[0] == t@[sp + 1]);
    }
    Ok((left, right))
}

} // verus!
