use vstd::prelude::*;
use vstd::string::StringSliceAdditionalSpecFns;
use crate::game::{CalculationError, Game, GameView, games_of, lines_of, parse_games};
use crate::round::Round;

verus! {

/// One of the three cube colours.
#[derive(Clone, Copy, Debug, PartialEq, Eq, Structural)]
pub enum Colour {
    Red,
    Green,
    Blue,
}

/// The count that a round shows of a colour.
pub open spec fn count_in(r: Round, c: Colour) -> u32 {
    match c {
        Colour::Red => r.red,
        Colour::Green => r.green,
        Colour::Blue => r.blue,
    }
}

/// The largest count of a colour over the rounds, zero where there are none.
pub open spec fn max_count(rounds: Seq<Round>, c: Colour) -> u32
    decreases rounds.len(),
{
    if rounds.len() == 0 {
        0
    } else {
        let before = max_count(rounds.drop_last(), c);
        let here = count_in(rounds.last(), c);
        if before >= here {
            before
        } else {
            here
        }
    }
}

/// The fewest cubes of each colour that could have shown every round.
#[derive(Clone, Copy, Debug, PartialEq, Eq, Structural)]
pub struct MinimumPossibleCubeSet {
    pub red: u32,
    pub green: u32,
    pub blue: u32,
}

pub open spec fn minimum_set(rounds: Seq<Round>) -> MinimumPossibleCubeSet {
    MinimumPossibleCubeSet {
        red: max_count(rounds, Colour::Red),
        green: max_count(rounds, Colour::Green),
        blue: max_count(rounds, Colour::Blue),
    }
}

/// The power of the minimum set of a game's rounds.
pub open spec fn power_of(rounds: Seq<Round>) -> nat {
    let m = minimum_set(rounds);
    (m.red * m.green * m.blue) as nat
}

/// The sum of the powers of the games.
pub open spec fn power_sum(games: Seq<GameView>) -> nat
    decreases games.len(),
{
    if games.len() == 0 {
        0
    } else {
        power_sum(games.drop_last()) + power_of(games.last().rounds)
    }
}

impl MinimumPossibleCubeSet {
    /// The componentwise maximum of the game's rounds.
    pub fn of_game(game: &Game) -> (r: MinimumPossibleCubeSet)
        requires
            game.rounds@.len() >= 1,
        ensures
            r == minimum_set(game.rounds@),
    {
        let rounds = &game.rounds;
        let mut red = rounds[0].red;
        let mut green = rounds[0].green;
        let mut blue = rounds[0].blue;
        let mut i: usize = 1;
        proof {
            assert(rounds@.take(1).drop_last() =~= Seq::<Round>::empty());
            assert(rounds@.take(1).last() == rounds@[0]);
            assert(max_count(Seq::<Round>::empty(), Colour::Red) == 0);
            assert(max_count(Seq::<Round>::empty(), Colour::Green) == 0);
            assert(max_count(Seq::<Round>::empty(), Colour::Blue) == 0);
        }
        while i < rounds.len()
            invariant
                1 <= i <= rounds@.len(),
                red == max_count(rounds@.take(i as int), Colour::Red),
                green == max_count(rounds@.take(i as int), Colour::Green),
                blue == max_count(rounds@.take(i as int), Colour::Blue),
            decreases rounds@.len() - i,
        {
            proof {
                assert(rounds@.take(i + 1).drop_last() =~= rounds@.take(i as int));
            }
            let round = rounds[i];
            if round.red > red {
                red = round.red;
            }
            if round.green > green {
                green = round.green;
            }
            if round.blue > blue {
                blue = round.blue;
            }
            i = i + 1;
        }
        proof {
            assert(rounds@.take(i as int) =~= rounds@);
        }
        MinimumPossibleCubeSet { red, green, blue }
    }

    /// The product of the three counts.
    pub fn power(self) -> (r: u128)
        ensures
            r == self.red * self.green * self.blue,
    {
        assert(self.red * self.green <= 0xffff_ffff_ffff_ffff) by (nonlinear_arith)
            requires
                self.red <= 0xffff_ffff,
                self.green <= 0xffff_ffff,
        ;
        let rg = self.red as u128 * self.green as u128;
        assert(rg * self.blue <= 0xffff_ffff_ffff_ffff_ffff_ffff) by (nonlinear_arith)
            requires
                rg <= 0xffff_ffff_ffff_ffff,
                self.blue <= 0xffff_ffff,
        ;
        rg * self.blue as u128
    }
}

/// A sum over more games is never smaller.
proof fn power_sum_grows(games: Seq<GameView>, i: int)
    requires
        0 <= i <= games.len(),
    ensures
        power_sum(games.take(i)) <= power_sum(games),
    decreases games.len() - i,
{
    if i < games.len() {
        assert(games.take(i + 1).drop_last() =~= games.take(i));
        power_sum_grows(games, i + 1);
    } else {
        assert(games.take(i) =~= games);
    }
}

/// The sum of the powers of the games' minimum sets, or `None` where it
/// exceeds `u128`.
pub fn sum_of_powers(games: &Vec<Game>) -> (r: Option<u128>)
    requires
        forall|k: int| 0 <= k < games@.len() ==> #[trigger] games@[k].rounds@.len() >= 1,
    ensures
        r == (if power_sum(games@.map_values(|g: Game| g@)) <= u128::MAX {
            Some(power_sum(games@.map_values(|g: Game| g@)) as u128)
        } else {
            None
        }),
{
    let ghost views = games@.map_values(|g: Game| g@);
    let mut sum: u128 = 0;
    let mut i: usize = 0;
    proof {
        assert(views.take(0) =~= Seq::<GameView>::empty());
    }
    while i < games.len()
        invariant
            views == games@.map_values(|g: Game| g@),
            forall|k: int| 0 <= k < games@.len() ==> #[trigger] games@[k].rounds@.len() >= 1,
            i <= games@.len(),
            sum == power_sum(views.take(i as int)),
        decreases games@.len() - i,
    {
        proof {
            assert(views.take(i + 1).drop_last() =~= views.take(i as int));
            assert(views.take(i + 1).last() == games@[i as int]@);
        }
        let p = MinimumPossibleCubeSet::of_game(&games[i]).power();
        if sum > u128::MAX - p {
            proof {
                power_sum_grows(views, i + 1);
            }
            return None;
        }
        sum = sum + p;
        i = i + 1;
    }
    proof {
        assert(views.take(i as int) =~= views);
    }
    Some(sum)
}

/// Decodes a log and sums the powers of its games' minimum sets.
pub fn calculate(text: &str) -> (r: Result<u128, CalculationError>)
    ensures
        match games_of(lines_of(text.spec_bytes())) {
            Err(e) => r == Err::<u128, CalculationError>(CalculationError::Parse(e)),
            Ok(gs) => r == if power_sum(gs) <= u128::MAX {
                Ok::<u128, CalculationError>(power_sum(gs) as u128)
            } else {
                Err(CalculationError::Overflow)
            },
        },
{
    let games = match parse_games(text) {
        Ok(games) => games,
        Err(e) => {
            return Err(CalculationError::Parse(e));
        },
    };
    match sum_of_powers(&games) {
        Some(sum) => Ok(sum),
        None => Err(CalculationError::Overflow),
    }
}

} // verus!
