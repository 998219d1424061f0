//! The game server's configuration, as the program's entry point sees it.
use vstd::prelude::*;

verus! {

/// A game server. It holds no configuration, and no configuration passes
/// validation.
pub struct GameServer {}

impl GameServer {
    pub fn new() -> (r: GameServer) {
        GameServer {  }
    }

    /// Whether the server is configured to run; never so.
    pub fn is_valid(&self) -> (r: bool)
        ensures
            !r,
    {
        false
    }
}

} // verus!
