use vstd::prelude::*;

verus! {

/// A request sent by a client, addressed to one game.
#[derive(Clone, Debug)]
pub enum Command {
    JoinPlayer { game_id: String, player_id: String, player_name: String },
    StartGame { game_id: String },
    RegisterAnswer { game_id: String, player_id: String, answer_index: i64, time_took: i64 },
    NextQuestion { game_id: String },
}

/// The game a command is addressed to.
pub open spec fn command_game_id(c: &Command) -> Seq<char> {
    match c {
        Command::JoinPlayer { game_id, .. } => game_id@,
        Command::StartGame { game_id } => game_id@,
        Command::RegisterAnswer { game_id, .. } => game_id@,
        Command::NextQuestion { game_id } => game_id@,
    }
}

impl Command {
    pub fn game_id(&self) -> (r: &str)
        ensures
            r@ == command_game_id(self),
    {
        match self {
            Command::JoinPlayer { game_id, .. } => game_id.as_str(),
            Command::StartGame { game_id } => game_id.as_str(),
            Command::RegisterAnswer { game_id, .. } => game_id.as_str(),
            Command::NextQuestion { game_id } => game_id.as_str(),
        }
    }
}

} // verus!
