//! The decisions of a game's actor: for each command it applies it to the
//! game, decides whether the game must be saved, hands out the events to
//! broadcast, and tells whether the game is over.
use crate::commands::Command;
use crate::events::GameEvent;
use crate::game::{after_command, command_fits, command_result, events_view, Game, GameError, GameView, STATUS_FINISHED};
use crate::time::{valid_instant, Timestamp};
use vstd::prelude::*;

verus! {

/// What the actor does after a command.
pub struct CommandOutcome {
    /// The reason the game refused the command; nothing else happens then.
    pub rejected: Option<GameError>,
    /// Whether the game must be saved.
    pub persist: bool,
    /// The events to broadcast, in order.
    pub events: Vec<GameEvent>,
    /// Whether the game is over and the actor stops.
    pub finished: bool,
}

/// Starting a game and moving between questions are saved.
pub open spec fn persists(cmd: &Command) -> bool {
    cmd is StartGame || cmd is NextQuestion
}

/// What the actor does with a command once the game accepted it and reached
/// state `g` (with its events still in it).
pub open spec fn accepted_outcome(o: &CommandOutcome, g: GameView, cmd: &Command) -> bool {
    &&& o.rejected is None
    &&& o.persist == persists(cmd)
    &&& events_view(o.events@) == g.events
    &&& o.finished == (g.status == STATUS_FINISHED@)
}

/// Applies a command to the game and decides what follows. A command the
/// game refuses, or one that finds the clock unreadable, changes nothing.
pub fn process_command(game: &mut Game, cmd: &Command) -> (o: CommandOutcome)
    requires
        command_fits(old(game)@, cmd),
    ensures
        command_result(old(game)@, cmd) matches Err(e) ==> o.rejected == Some(e),
        o.rejected matches Some(e) ==> {
            &&& e == GameError::ClockUnavailable || command_result(old(game)@, cmd) == Err::<(), GameError>(e)
            &&& !o.persist
            &&& o.events@.len() == 0
            &&& !o.finished
            &&& final(game)@ == old(game)@
        },
        o.rejected is None ==> command_result(old(game)@, cmd) is Ok && exists|t1: Timestamp, t2: Timestamp|
            {
                let g = #[trigger] after_command(old(game)@, cmd, t1, t2);
                &&& valid_instant(t1)
                &&& valid_instant(t2)
                &&& accepted_outcome(&o, g, cmd)
                &&& final(game)@ == (GameView { events: Seq::empty(), ..g })
            },
{
    let persist = match cmd {
        Command::StartGame { .. } => true,
        Command::NextQuestion { .. } => true,
        _ => false,
    };
    match game.apply_command(cmd) {
        Err(e) => CommandOutcome { rejected: Some(e), persist: false, events: Vec::new(), finished: false },
        Ok(()) => {
            let ghost g = game@;
            let events = game.take_events();
            let finished = game.status == STATUS_FINISHED.to_owned();
            let o = CommandOutcome { rejected: None, persist, events, finished };
            assert(accepted_outcome(&o, g, cmd));
            o
        },
    }
}

} // verus!
