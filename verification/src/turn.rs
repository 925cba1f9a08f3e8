use vstd::prelude::*;

use crate::game::{claim_outcome, set_in_slots, Game};
use crate::players::{
    digit_name_message, duplicate_name_message, empty_name_message, name_ok, Players,
};
use crate::text::{ascii_case_eq, trimmed};

verus! {

/// Claims slots `i`, `j`, `k` on behalf of `player`, when one is named:
/// the claim goes to the game as `Game::try_claim` does, and only a
/// successful claim raises that player's score, by one.
pub fn claim_for(game: &mut Game, roster: &mut Players, player: Option<usize>, i: usize, j: usize, k: usize) -> (claimed: bool)
    requires
        old(game).wf(),
        i < old(game).board@.len(),
        j < old(game).board@.len(),
        k < old(game).board@.len(),
        old(game).attempts < u32::MAX,
        old(game).found_sets < u32::MAX,
        old(roster).wf(),
        player matches Some(p) ==> p < old(roster).name_list().len() && old(roster).score_list()[p as int] < u32::MAX,
    ensures
        claimed == (i != j && j != k && i != k
            && set_in_slots(old(game).board@, i as int, j as int, k as int)),
        final(game).attempts == old(game).attempts + 1,
        final(game).wf(),
        !claimed ==> {
            &&& final(game).board == old(game).board
            &&& final(game).deck == old(game).deck
            &&& final(game).found_sets == old(game).found_sets
        },
        claimed ==> {
            &&& final(game).found_sets == old(game).found_sets + 1
            &&& (final(game).board@, final(game).deck@, final(game).new_indices@)
                == claim_outcome(old(game).board@, old(game).deck@, old(game).static_mode, i, j, k)
        },
        final(roster).wf(),
        final(roster).name_list() == old(roster).name_list(),
        final(roster).score_list() == match player {
            Some(p) => if claimed {
                old(roster).score_list().update(p as int, (old(roster).score_list()[p as int] + 1) as u32)
            } else {
                old(roster).score_list()
            },
            None => old(roster).score_list(),
        },
{
    let claimed = game.try_claim(i, j, k);
    if claimed {
        if let Some(p) = player {
            roster.add_score(p);
        }
    }
    claimed
}

/// Registers a player during a game; registering turns team mode on.
/// Gives whether this registration turned it on.
pub fn add_player(roster: &mut Players, team_mode: &mut bool, name: &str) -> (r: Result<bool, String>)
    requires
        old(roster).wf(),
    ensures
        final(roster).wf(),
        r is Ok <==> name_ok(name@) && forall|i: int|
            0 <= i < old(roster).name_list().len() ==> !ascii_case_eq(
                #[trigger] old(roster).name_list()[i],
                trimmed(name@),
            ),
        r is Ok ==> final(roster).name_list() == old(roster).name_list().push(trimmed(name@))
            && final(roster).score_list() == old(roster).score_list().push(0),
        r is Err ==> final(roster).name_list() == old(roster).name_list()
            && final(roster).score_list() == old(roster).score_list(),
        r matches Ok(newly) ==> newly == !*old(team_mode) && *final(team_mode),
        r is Err ==> *final(team_mode) == *old(team_mode),
        r matches Err(msg) ==> msg@ == if !name_ok(name@) {
            if trimmed(name@).len() == 0 {
                empty_name_message()
            } else {
                digit_name_message(trimmed(name@))
            }
        } else {
            duplicate_name_message(trimmed(name@))
        },
{
    match roster.register(name) {
        Ok(()) => {
            let newly = !*team_mode;
            *team_mode = true;
            Ok(newly)
        },
        Err(msg) => Err(msg),
    }
}

} // verus!
