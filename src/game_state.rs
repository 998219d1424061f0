//! A match: the players, keyed by identity, and the board.
use vstd::prelude::*;

use crate::board::{has_tile, Mountain};
use crate::errors::GameError;
use crate::ids::fresh_id;
use crate::models::{first_index, lemma_first_index_meaning, lemma_first_index_scan, Player, PlayerView, Position};

verus! {

/// The player with identity `id`, as a predicate.
pub open spec fn has_id(id: u128) -> spec_fn(PlayerView) -> bool {
    |p: PlayerView| p.id == id
}

/// The index of the player with identity `id`, or `-1`.
pub open spec fn player_index(ps: Seq<PlayerView>, id: u128) -> int {
    first_index(ps, has_id(id))
}

/// No two players share an identity.
pub open spec fn ids_unique(ps: Seq<PlayerView>) -> bool {
    forall|i: int, j: int| 0 <= i < j < ps.len() ==> (#[trigger] ps[i]).id != (#[trigger] ps[j]).id
}

/// The players with a player put in: in place of the one with its identity,
/// or at the end.
pub open spec fn players_with(ps: Seq<PlayerView>, p: PlayerView) -> Seq<PlayerView> {
    let i = player_index(ps, p.id);
    if i >= 0 {
        ps.update(i, p)
    } else {
        ps.push(p)
    }
}

#[derive(Debug)]
pub struct GameState {
    pub game_id: u128,
    /// Keyed by each player's own identity, which no two players share.
    pub players: Vec<Player>,
    pub active_player: u128,
    pub turn_number: u32,
    pub mountain: Mountain,
}

impl GameState {
    /// The players' states, in order.
    pub open spec fn players_view(&self) -> Seq<PlayerView> {
        self.players@.map_values(|p: Player| p@)
    }

    pub open spec fn wf(&self) -> bool {
        ids_unique(self.players_view())
    }

    /// A match of two players on a board of seven levels; the first player
    /// is the active one and the turn number is 1. Two players with one
    /// identity count as one: the second.
    pub fn new(player1: Player, player2: Player) -> (r: GameState)
        ensures
            r.wf(),
            r.players_view() == players_with(seq![player1@], player2@),
            r.active_player == player1.id,
            r.turn_number == 1,
            r.mountain.levels == 7,
            r.mountain.wf(),
            forall|x: u32, y: u32, z: u32| #[trigger]
                has_tile(r.mountain.tiles@, x, y, z) <==> x + y + z < 7,
    {
        let p1_id = player1.id;
        let mut players: Vec<Player> = Vec::new();
        players.push(player1);
        let mut state = GameState {
            game_id: fresh_id(),
            players,
            active_player: p1_id,
            turn_number: 1,
            mountain: Mountain::new(7),
        };
        assert(state.players_view() =~= seq![state.players@[0]@]);
        state.insert_player(player2);
        state
    }

    /// The index of the player with identity `id`.
    pub fn find_player(&self, id: u128) -> (r: Option<usize>)
        ensures
            r is None <==> player_index(self.players_view(), id) < 0,
            r matches Some(i) ==> i == player_index(self.players_view(), id) && i < self.players@.len(),
    {
        let ghost ps = self.players_view();
        proof {
            lemma_first_index_meaning(ps, has_id(id));
        }
        let mut i: usize = 0;
        while i < self.players.len()
            invariant
                i <= self.players.len(),
                ps == self.players_view(),
                forall|k: int| 0 <= k < i ==> !has_id(id)(#[trigger] ps[k]),
            decreases self.players.len() - i,
        {
            if self.players[i].id == id {
                proof {
                    lemma_first_index_scan(ps, has_id(id), i as int);
                }
                return Some(i);
            }
            i += 1;
        }
        proof {
            lemma_first_index_scan(ps, has_id(id), i as int);
        }
        None
    }

    /// The player with identity `id`.
    pub fn player(&self, id: u128) -> (r: Option<&Player>)
        ensures
            r is None <==> player_index(self.players_view(), id) < 0,
            r matches Some(p) ==> *p == self.players@[player_index(self.players_view(), id)],
    {
        match self.find_player(id) {
            Some(i) => Some(&self.players[i]),
            None => None,
        }
    }

    /// Puts a player in the match under its own identity; returns the
    /// player it replaces, if one had that identity.
    pub fn insert_player(&mut self, player: Player) -> (r: Option<Player>)
        ensures
            final(self).players_view() == players_with(old(self).players_view(), player@),
            r is Some <==> player_index(old(self).players_view(), player.id) >= 0,
            r matches Some(q) ==> q == old(self).players@[player_index(old(self).players_view(), player.id)],
            old(self).wf() ==> final(self).wf(),
            final(self).game_id == old(self).game_id,
            final(self).active_player == old(self).active_player,
            final(self).turn_number == old(self).turn_number,
            final(self).mountain == old(self).mountain,
    {
        let ghost ps = self.players_view();
        proof {
            lemma_first_index_meaning(ps, has_id(player.id));
        }
        match self.find_player(player.id) {
            Some(i) => {
                let ghost pv = player@;
                self.players.push(player);
                let old_player = self.players.swap_remove(i);
                assert(self.players_view() =~= ps.update(i as int, pv));
                Some(old_player)
            },
            None => {
                self.players.push(player);
                assert(self.players_view() =~= ps.push(player@));
                None
            },
        }
    }

    /// Moves a player one step to `new_position`. Fails with
    /// `PlayerNotFound` when no player has identity `player_id`, and with
    /// `InvalidMove` when the board does not allow the move; it changes
    /// nothing then.
    pub fn move_player(&mut self, player_id: u128, new_position: Position) -> (r: Result<(), GameError>)
        ensures
            ({
                let ps = old(self).players_view();
                let i = player_index(ps, player_id);
                if i < 0 {
                    r == Err::<(), GameError>(GameError::PlayerNotFound) && *final(self) == *old(self)
                } else if !old(self).mountain.valid_move_spec(ps[i].position, new_position) {
                    r == Err::<(), GameError>(GameError::InvalidMove) && *final(self) == *old(self)
                } else {
                    &&& r == Ok::<(), GameError>(())
                    &&& final(self).players_view() == ps.update(i, PlayerView { position: new_position, ..ps[i] })
                    &&& final(self).game_id == old(self).game_id
                    &&& final(self).active_player == old(self).active_player
                    &&& final(self).turn_number == old(self).turn_number
                    &&& final(self).mountain == old(self).mountain
                }
            }),
    {
        let ghost ps = self.players_view();
        let i = match self.find_player(player_id) {
            Some(i) => i,
            None => return Err(GameError::PlayerNotFound),
        };
        let current = self.players[i].position;
        if !self.mountain.is_valid_move(current, new_position) {
            return Err(GameError::InvalidMove);
        }
        self.players[i].position = new_position;
        assert(self.players_view() =~= ps.update(i as int, PlayerView { position: new_position, ..ps[i as int] }));
        Ok(())
    }
}

} // verus!
