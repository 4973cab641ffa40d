//! One connected client within a match segment.

use vstd::prelude::*;

verus! {

/// Spec-level model of a [`Player`].
pub struct PlayerView {
    pub id: u32,
    pub name: Seq<char>,
    pub joined: bool,
}

/// A client connected during the current match segment. Created with an
/// empty name on connect; the name is set by identity-change events;
/// `joined` is set when the client enters active play.
#[derive(Clone, Debug, PartialEq, Eq)]
pub struct Player {
    pub id: u32,
    pub name: String,
    pub joined: bool,
}

impl View for Player {
    type V = PlayerView;

    open spec fn view(&self) -> PlayerView {
        PlayerView { id: self.id, name: self.name@, joined: self.joined }
    }
}

impl DeepView for Player {
    type V = PlayerView;

    open spec fn deep_view(&self) -> PlayerView {
        self.view()
    }
}

impl Player {
    /// A freshly connected player: empty name, not yet in active play.
    pub fn new(id: u32) -> (p: Player)
        ensures
            p@ == (PlayerView { id, name: Seq::<char>::empty(), joined: false }),
    {
        Player { id, name: String::new(), joined: false }
    }
}

} // verus!
