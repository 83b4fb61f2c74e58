use vstd::prelude::*;
use vstd::string::StringSliceAdditionalSpecFns;
use crate::game::{CalculationError, Game, GameView, games_of, lines_of, parse_games};
use crate::round::Round;

verus! {

pub const RED_LIMIT: u32 = 12;

pub const GREEN_LIMIT: u32 = 13;

pub const BLUE_LIMIT: u32 = 14;

/// The cubes that the bag is said to hold: 12 red, 13 green and 14 blue.
pub fn standard_constraints() -> (r: Round)
    ensures
        r == (Round { red: 12, green: 13, blue: 14 }),
{
    Round { red: RED_LIMIT, green: GREEN_LIMIT, blue: BLUE_LIMIT }
}

/// Every round of the game satisfies the constraints.
pub open spec fn possible(rounds: Seq<Round>, constraints: Round) -> bool {
    forall|i: int| 0 <= i < rounds.len() ==> (#[trigger] rounds[i]).satisfies(constraints)
}

/// The sum of the identifiers of the possible games.
pub open spec fn possible_id_sum(games: Seq<GameView>, constraints: Round) -> nat
    decreases games.len(),
{
    if games.len() == 0 {
        0
    } else {
        possible_id_sum(games.drop_last(), constraints) + if possible(
            games.last().rounds,
            constraints,
        ) {
            games.last().game_id as nat
        } else {
            0
        }
    }
}

/// Whether every round of `game` satisfies `constraints`.
pub fn game_was_possible(game: &Game, constraints: &Round) -> (r: bool)
    ensures
        r == possible(game.rounds@, *constraints),
{
    let mut i: usize = 0;
    while i < game.rounds.len()
        invariant
            i <= game.rounds@.len(),
            forall|k: int| 0 <= k < i ==> (#[trigger] game.rounds@[k]).satisfies(*constraints),
        decreases game.rounds@.len() - i,
    {
        if !game.rounds[i].satisfies_constraints(constraints) {
            return false;
        }
        i = i + 1;
    }
    true
}

/// A sum over more games is never smaller.
proof fn possible_id_sum_grows(games: Seq<GameView>, constraints: Round, i: int)
    requires
        0 <= i <= games.len(),
    ensures
        possible_id_sum(games.take(i), constraints) <= possible_id_sum(games, constraints),
    decreases games.len() - i,
{
    if i < games.len() {
        assert(games.take(i + 1).drop_last() =~= games.take(i));
        possible_id_sum_grows(games, constraints, i + 1);
    } else {
        assert(games.take(i) =~= games);
    }
}

/// The sum of the identifiers of the games that satisfy `constraints`, or
/// `None` where it exceeds `u64`.
pub fn sum_of_possible_ids(games: &Vec<Game>, constraints: &Round) -> (r: Option<u64>)
    ensures
        r == (if possible_id_sum(games@.map_values(|g: Game| g@), *constraints) <= u64::MAX {
            Some(possible_id_sum(games@.map_values(|g: Game| g@), *constraints) as u64)
        } else {
            None
        }),
{
    let ghost views = games@.map_values(|g: Game| g@);
    let mut sum: u64 = 0;
    let mut i: usize = 0;
    proof {
        assert(views.take(0) =~= Seq::<GameView>::empty());
    }
    while i < games.len()
        invariant
            views == games@.map_values(|g: Game| g@),
            i <= games@.len(),
            sum == possible_id_sum(views.take(i as int), *constraints),
        decreases games@.len() - i,
    {
        proof {
            assert(views.take(i + 1).drop_last() =~= views.take(i as int));
            assert(views.take(i + 1).last() == games@[i as int]@);
        }
        if game_was_possible(&games[i], constraints) {
            let id = games[i].game_id;
            if sum > u64::MAX - id {
                proof {
                    possible_id_sum_grows(views, *constraints, i + 1);
                }
                return None;
            }
            sum = sum + id;
        }
        i = i + 1;
    }
    proof {
        assert(views.take(i as int) =~= views);
    }
    Some(sum)
}

/// Decodes a log and sums the identifiers of its games that satisfy
/// `constraints`.
pub fn calculate(text: &str, constraints: &Round) -> (r: Result<u64, CalculationError>)
    ensures
        match games_of(lines_of(text.spec_bytes())) {
            Err(e) => r == Err::<u64, CalculationError>(CalculationError::Parse(e)),
            Ok(gs) => r == if possible_id_sum(gs, *constraints) <= u64::MAX {
                Ok::<u64, CalculationError>(possible_id_sum(gs, *constraints) as u64)
            } else {
                Err(CalculationError::Overflow)
            },
        },
{
    let games = match parse_games(text) {
        Ok(games) => games,
        Err(e) => {
            return Err(CalculationError::Parse(e));
        },
    };
    match sum_of_possible_ids(&games, constraints) {
        Some(sum) => Ok(sum),
        None => Err(CalculationError::Overflow),
    }
}

} // verus!
