use vstd::prelude::*;

verus! {

/// A participant of a game.
#[derive(Clone, Debug)]
pub struct Player {
    pub id: String,
    pub name: String,
}

pub struct PlayerView {
    pub id: Seq<char>,
    pub name: Seq<char>,
}

impl View for Player {
    type V = PlayerView;

    open spec fn view(&self) -> PlayerView {
        PlayerView { id: self.id@, name: self.name@ }
    }
}

impl Player {
    pub fn new(id: String, name: String) -> (r: Player)
        ensures
            r.id == id,
            r.name == name,
    {
        Player { id, name }
    }
}

} // verus!
