//! A player's card collection and named decks.
use vstd::prelude::*;

use crate::models::Deck;
use std::collections::{HashMap, HashSet};

verus! {

#[derive(Debug)]
pub struct Collection {
    pub owner_id: u128,
    /// The identities of the cards owned.
    pub cards: HashSet<u128>,
    /// The decks, by name.
    pub decks: HashMap<String, Deck>,
}

impl Collection {
    /// An empty collection of `owner_id`.
    pub fn new(owner_id: u128) -> (r: Collection)
        ensures
            r.owner_id == owner_id,
            r.cards@ == Set::<u128>::empty(),
            r.decks@ == Map::<String, Deck>::empty(),
    {
        Collection { owner_id, cards: HashSet::new(), decks: HashMap::new() }
    }
}

} // verus!
