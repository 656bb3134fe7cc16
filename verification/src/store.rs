use vstd::prelude::*;

verus! {

/// The Redis key under which a game is stored: `game:` and the game's id.
pub open spec fn game_key_of(game_id: Seq<char>) -> Seq<char> {
    "game:"@ + game_id
}

pub fn game_key(game_id: &str) -> (k: String)
    ensures
        k@ == game_key_of(game_id@),
{
    let mut k = "game:".to_owned();
    k.append(game_id);
    k
}

} // verus!
