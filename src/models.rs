//! Cards, decks, players and the board.
use vstd::prelude::*;

use crate::effects::{CostFilter, DrawFilter, Duration, EffectType};
use crate::errors::GameError;
use crate::ids::fresh_id;

pub use crate::board::{Mountain, Tile, TileContent};

verus! {

/// How rare a card is, from `Common` up to `Legendary`.
#[derive(Debug, Clone, Copy, PartialEq, Eq, Structural, PartialOrd, Ord)]
pub enum Rarity {
    Common,
    Uncommon,
    Rare,
    Legendary,
}

impl Rarity {
    /// The place of a rarity in the order `Common < Uncommon < Rare < Legendary`.
    pub open spec fn rank(self) -> nat {
        match self {
            Rarity::Common => 0,
            Rarity::Uncommon => 1,
            Rarity::Rare => 2,
            Rarity::Legendary => 3,
        }
    }

    /// Whether `self` is as rare as `other` or rarer.
    pub fn at_least(&self, other: &Rarity) -> (r: bool)
        ensures
            r == (self.rank() >= other.rank()),
    {
        let a: u8 = match self {
            Rarity::Common => 0,
            Rarity::Uncommon => 1,
            Rarity::Rare => 2,
            Rarity::Legendary => 3,
        };
        let b: u8 = match other {
            Rarity::Common => 0,
            Rarity::Uncommon => 1,
            Rarity::Rare => 2,
            Rarity::Legendary => 3,
        };
        a >= b
    }
}

#[derive(Debug, Clone, Copy, PartialEq, Eq, Structural)]
pub enum CardType {
    Climber,
    Spell,
    Weapon,
    Trap,
    Gear,
}

#[derive(Debug, Clone, PartialEq)]
pub struct Card {
    pub id: u128,
    pub name: String,
    pub cost: u32,
    pub power: u32,
    pub rarity: Rarity,
    pub effects: Vec<crate::effects::Effect>,
    pub card_type: CardType,
}

/// Whether a card passes a draw filter.
pub open spec fn matches_filter(card: Card, filter: DrawFilter) -> bool {
    match filter {
        DrawFilter::Cost(CostFilter::Equal(c)) => card.cost == c,
        DrawFilter::Cost(CostFilter::LessThan(c)) => card.cost < c,
        DrawFilter::Cost(CostFilter::GreaterThan(c)) => card.cost > c,
        DrawFilter::Type(t) => card.card_type == t,
        DrawFilter::Rarity(r) => card.rarity == r,
    }
}

fn card_matches(card: &Card, filter: &DrawFilter) -> (r: bool)
    ensures
        r == matches_filter(*card, *filter),
{
    match filter {
        DrawFilter::Cost(CostFilter::Equal(c)) => card.cost == *c,
        DrawFilter::Cost(CostFilter::LessThan(c)) => card.cost < *c,
        DrawFilter::Cost(CostFilter::GreaterThan(c)) => card.cost > *c,
        DrawFilter::Type(t) => card.card_type == *t,
        DrawFilter::Rarity(r) => card.rarity == *r,
    }
}

#[derive(Debug, Clone)]
pub struct Deck {
    /// The next card to draw comes first.
    pub cards: Vec<Card>,
    pub owner_id: u128,
}

/// A place on the board in cube coordinates, with its level `x + y + z`.
#[derive(Debug, Clone, Copy, PartialEq, Eq, Structural, Default)]
pub struct Position {
    pub x: u32,
    pub y: u32,
    pub z: u32,
    pub level: u32,
}

/// `v` capped at the largest `u32`.
pub open spec fn saturate(v: int) -> int {
    if v > u32::MAX {
        u32::MAX as int
    } else {
        v
    }
}

/// The sum of the amounts of a list of modifiers.
pub open spec fn amount_sum(s: Seq<(u32, Duration)>) -> int
    decreases s.len(),
{
    if s.len() == 0 {
        0
    } else {
        amount_sum(s.drop_last()) + s.last().0
    }
}

/// The sum of the power of a list of cards.
pub open spec fn card_power_sum(s: Seq<Card>) -> int
    decreases s.len(),
{
    if s.len() == 0 {
        0
    } else {
        card_power_sum(s.drop_last()) + s.last().power
    }
}

/// The index of the first element of `s` that satisfies `p`, or `-1`.
pub open spec fn first_index<A>(s: Seq<A>, p: spec_fn(A) -> bool) -> int
    decreases s.len(),
{
    if s.len() == 0 {
        -1
    } else if p(s[0]) {
        0
    } else {
        let r = first_index(s.subrange(1, s.len() as int), p);
        if r < 0 {
            -1
        } else {
            r + 1
        }
    }
}

/// A scan that found no match before `i` ends there if `s[i]` matches, and
/// finds nothing if it reached the end.
pub proof fn lemma_first_index_scan<A>(s: Seq<A>, p: spec_fn(A) -> bool, i: int)
    requires
        0 <= i <= s.len(),
        forall|k: int| 0 <= k < i ==> !p(#[trigger] s[k]),
    ensures
        i < s.len() && p(s[i]) ==> first_index(s, p) == i,
        i == s.len() ==> first_index(s, p) == -1,
    decreases i,
{
    if i > 0 {
        let t = s.subrange(1, s.len() as int);
        assert forall|k: int| 0 <= k < i - 1 implies !p(#[trigger] t[k]) by {
            assert(t[k] == s[k + 1]);
        }
        lemma_first_index_scan(t, p, i - 1);
        if i < s.len() {
            assert(t[i - 1] == s[i]);
        }
    }
}

/// What the first index is: a match with no match before it, or `-1` when
/// nothing matches.
pub proof fn lemma_first_index_meaning<A>(s: Seq<A>, p: spec_fn(A) -> bool)
    ensures
        -1 <= first_index(s, p) < s.len(),
        first_index(s, p) >= 0 ==> p(s[first_index(s, p)]),
        forall|k: int| 0 <= k < first_index(s, p) ==> !p(#[trigger] s[k]),
        first_index(s, p) == -1 ==> forall|k: int| 0 <= k < s.len() ==> !p(#[trigger] s[k]),
    decreases s.len(),
{
    if s.len() > 0 && !p(s[0]) {
        let t = s.subrange(1, s.len() as int);
        lemma_first_index_meaning(t, p);
        assert forall|k: int| 0 < k < s.len() implies s[k] == #[trigger] t[k - 1] by {}
        assert forall|k: int| 0 <= k < first_index(s, p) implies !p(#[trigger] s[k]) by {
            if k > 0 {
                assert(s[k] == t[k - 1]);
            }
        }
        if first_index(s, p) == -1 {
            assert forall|k: int| 0 <= k < s.len() implies !p(#[trigger] s[k]) by {
                if k > 0 {
                    assert(s[k] == t[k - 1]);
                }
            }
        }
    }
}

impl Duration {
    /// A temporary modifier with no turns left.
    pub open spec fn is_expired(self) -> bool {
        self == Duration::Temporary(0)
    }

    /// The duration after one turn advance: a temporary count goes down by
    /// one and stops at zero; the others stay.
    pub open spec fn ticked(self) -> Duration {
        match self {
            Duration::Temporary(n) => Duration::Temporary(
                if n > 0 {
                    (n - 1) as u32
                } else {
                    0
                },
            ),
            _ => self,
        }
    }

    fn expired(&self) -> (r: bool)
        ensures
            r == self.is_expired(),
    {
        match self {
            Duration::Temporary(n) => *n == 0,
            _ => false,
        }
    }

    fn tick(&self) -> (r: Duration)
        ensures
            r == self.ticked(),
    {
        match self {
            Duration::Temporary(n) => Duration::Temporary(n.saturating_sub(1)),
            _ => *self,
        }
    }
}

/// A list of timed modifiers after one turn advance: the expired entries
/// leave, then every temporary count that remains goes down by one.
pub open spec fn advance_modifiers<T>(s: Seq<(T, Duration)>) -> Seq<(T, Duration)>
    decreases s.len(),
{
    if s.len() == 0 {
        Seq::empty()
    } else {
        let r = advance_modifiers(s.drop_last());
        let e = s.last();
        if e.1.is_expired() {
            r
        } else {
            r.push((e.0, e.1.ticked()))
        }
    }
}

fn advance_list<T: Copy>(v: &Vec<(T, Duration)>) -> (r: Vec<(T, Duration)>)
    ensures
        r@ == advance_modifiers(v@),
{
    let mut out: Vec<(T, Duration)> = Vec::new();
    let mut i: usize = 0;
    while i < v.len()
        invariant
            i <= v.len(),
            out@ == advance_modifiers(v@.take(i as int)),
        decreases v.len() - i,
    {
        let e = v[i];
        assert(v@.take(i + 1).drop_last() =~= v@.take(i as int));
        if !e.1.expired() {
            out.push((e.0, e.1.tick()));
        }
        i += 1;
    }
    assert(v@.take(v.len() as int) =~= v@);
    out
}

/// `matches_filter` as a predicate on cards.
pub open spec fn filter_pred(filter: DrawFilter) -> spec_fn(Card) -> bool {
    |c: Card| matches_filter(c, filter)
}

/// The combat state of a player, as plain values.
pub struct PlayerView {
    pub id: u128,
    pub name: Seq<char>,
    pub health: u32,
    pub hand: Seq<Card>,
    pub deck: Seq<Card>,
    pub deck_owner: u128,
    pub mana: u32,
    pub position: Position,
    pub max_health: u32,
    pub power_boosts: Seq<(u32, Duration)>,
    pub health_boosts: Seq<(u32, Duration)>,
    pub active_effects: Seq<(EffectType, Duration)>,
    pub cards_played_this_turn: u32,
    pub mana_spent_this_turn: u32,
}

impl PlayerView {
    /// The power of the hand's cards plus every power boost.
    pub open spec fn power(self) -> int {
        card_power_sum(self.hand) + amount_sum(self.power_boosts)
    }

    /// The base maximum health plus every health boost.
    pub open spec fn effective_max_health(self) -> int {
        self.max_health + amount_sum(self.health_boosts)
    }

    pub open spec fn has_effect(self, t: EffectType) -> bool {
        exists|i: int| 0 <= i < self.active_effects.len() && (#[trigger] self.active_effects[i]).0 == t
    }

    /// The index in the deck of the first card that passes `filter`, or `-1`.
    pub open spec fn first_match(self, filter: DrawFilter) -> int {
        first_index(self.deck, filter_pred(filter))
    }

    /// The deck's card at `i` moved to the end of the hand.
    pub open spec fn with_card_drawn(self, i: int) -> PlayerView {
        PlayerView { hand: self.hand.push(self.deck[i]), deck: self.deck.remove(i), ..self }
    }

    pub open spec fn with_power_boost(self, amount: u32, d: Duration) -> PlayerView {
        PlayerView { power_boosts: self.power_boosts.push((amount, d)), ..self }
    }

    /// A health boost added, and health lowered to the new effective maximum
    /// where it stands above it.
    pub open spec fn with_health_boost(self, amount: u32, d: Duration) -> PlayerView {
        let p = PlayerView { health_boosts: self.health_boosts.push((amount, d)), ..self };
        PlayerView {
            health: if p.health <= p.effective_max_health() {
                p.health
            } else {
                p.effective_max_health() as u32
            },
            ..p
        }
    }

    /// A buff: its power part and its health part, each only where positive.
    pub open spec fn with_buff(self, power: i32, health: i32, d: Duration) -> PlayerView {
        let p = if power > 0 {
            self.with_power_boost(power as u32, d)
        } else {
            self
        };
        if health > 0 {
            p.with_health_boost(health as u32, d)
        } else {
            p
        }
    }

    /// The player after a turn advance: the per-turn counters are reset and
    /// each list of timed modifiers is advanced.
    pub open spec fn after_turn(self) -> PlayerView {
        PlayerView {
            cards_played_this_turn: 0,
            mana_spent_this_turn: 0,
            power_boosts: advance_modifiers(self.power_boosts),
            health_boosts: advance_modifiers(self.health_boosts),
            active_effects: advance_modifiers(self.active_effects),
            ..self
        }
    }
}

#[derive(Debug, Clone)]
pub struct Player {
    pub id: u128,
    pub name: String,
    pub health: u32,
    /// In the order the cards were drawn.
    pub hand: Vec<Card>,
    pub deck: Deck,
    pub mana: u32,
    pub position: Position,
    /// The base maximum health, before health boosts.
    pub max_health: u32,
    pub power_boosts: Vec<(u32, Duration)>,
    pub health_boosts: Vec<(u32, Duration)>,
    pub active_effects: Vec<(EffectType, Duration)>,
    pub cards_played_this_turn: u32,
    pub mana_spent_this_turn: u32,
}

impl View for Player {
    type V = PlayerView;

    open spec fn view(&self) -> PlayerView {
        PlayerView {
            id: self.id,
            name: self.name@,
            health: self.health,
            hand: self.hand@,
            deck: self.deck.cards@,
            deck_owner: self.deck.owner_id,
            mana: self.mana,
            position: self.position,
            max_health: self.max_health,
            power_boosts: self.power_boosts@,
            health_boosts: self.health_boosts@,
            active_effects: self.active_effects@,
            cards_played_this_turn: self.cards_played_this_turn,
            mana_spent_this_turn: self.mana_spent_this_turn,
        }
    }
}

fn sum_amounts(v: &Vec<(u32, Duration)>) -> (r: u32)
    ensures
        r == saturate(amount_sum(v@)),
{
    let mut acc: u32 = 0;
    let mut i: usize = 0;
    while i < v.len()
        invariant
            i <= v.len(),
            acc == saturate(amount_sum(v@.take(i as int))),
        decreases v.len() - i,
    {
        assert(v@.take(i + 1).drop_last() =~= v@.take(i as int));
        acc = acc.saturating_add(v[i].0);
        i += 1;
    }
    assert(v@.take(v.len() as int) =~= v@);
    acc
}

impl Player {
    /// A player with full health (30 of 30), an empty hand, no mana, at the
    /// origin of the board, with no modifiers, and a fresh random identity.
    pub fn new(name: String, deck: Deck) -> (r: Player)
        ensures
            r@.name == name@,
            r@.health == 30,
            r@.max_health == 30,
            r@.hand.len() == 0,
            r@.deck == deck.cards@,
            r@.deck_owner == deck.owner_id,
            r@.mana == 0,
            r@.position == (Position { x: 0, y: 0, z: 0, level: 0 }),
            r@.power_boosts.len() == 0,
            r@.health_boosts.len() == 0,
            r@.active_effects.len() == 0,
            r@.cards_played_this_turn == 0,
            r@.mana_spent_this_turn == 0,
    {
        Player {
            id: fresh_id(),
            name,
            health: 30,
            max_health: 30,
            hand: Vec::new(),
            deck,
            mana: 0,
            position: Position { x: 0, y: 0, z: 0, level: 0 },
            power_boosts: Vec::new(),
            health_boosts: Vec::new(),
            active_effects: Vec::new(),
            cards_played_this_turn: 0,
            mana_spent_this_turn: 0,
        }
    }

    /// The power of the hand's cards plus every power boost, capped at the
    /// largest `u32`.
    pub fn get_power(&self) -> (r: u32)
        ensures
            r == saturate(self@.power()),
    {
        let mut acc: u32 = 0;
        let mut i: usize = 0;
        while i < self.hand.len()
            invariant
                i <= self.hand.len(),
                acc == saturate(card_power_sum(self.hand@.take(i as int))),
            decreases self.hand.len() - i,
        {
            assert(self.hand@.take(i + 1).drop_last() =~= self.hand@.take(i as int));
            acc = acc.saturating_add(self.hand[i].power);
            i += 1;
        }
        assert(self.hand@.take(self.hand.len() as int) =~= self.hand@);
        let boosts = sum_amounts(&self.power_boosts);
        proof {
            assert(card_power_sum(self.hand@) >= 0) by {
                lemma_card_power_sum_nonneg(self.hand@);
            }
            assert(amount_sum(self.power_boosts@) >= 0) by {
                lemma_amount_sum_nonneg(self.power_boosts@);
            }
        }
        acc.saturating_add(boosts)
    }

    /// Whether one of the active effects is of kind `effect_type`.
    pub fn has_effect(&self, effect_type: &EffectType) -> (r: bool)
        ensures
            r == self@.has_effect(*effect_type),
    {
        let mut i: usize = 0;
        while i < self.active_effects.len()
            invariant
                i <= self.active_effects.len(),
                forall|k: int| 0 <= k < i ==> (#[trigger] self.active_effects@[k]).0 != *effect_type,
            decreases self.active_effects.len() - i,
        {
            if self.active_effects[i].0 == *effect_type {
                assert(self@.active_effects[i as int].0 == *effect_type);
                return true;
            }
            i += 1;
        }
        false
    }

    /// The effective maximum health (base plus health boosts), capped at the
    /// largest `u32`.
    pub fn max_health(&self) -> (r: u32)
        ensures
            r == saturate(self@.effective_max_health()),
    {
        let boosts = sum_amounts(&self.health_boosts);
        proof {
            lemma_amount_sum_nonneg(self.health_boosts@);
        }
        self.max_health.saturating_add(boosts)
    }

    /// Moves the first deck card that passes `filter` to the end of the hand;
    /// fails with `NoValidCard`, changing nothing, when no card passes.
    pub fn draw_filtered(&mut self, filter: &DrawFilter) -> (r: Result<(), GameError>)
        ensures
            old(self)@.first_match(*filter) < 0 ==> r == Err::<(), GameError>(GameError::NoValidCard)
                && final(self)@ == old(self)@,
            old(self)@.first_match(*filter) >= 0 ==> r == Ok::<(), GameError>(()) && final(self)@ == old(self)@.with_card_drawn(
                old(self)@.first_match(*filter),
            ),
    {
        let mut i: usize = 0;
        while i < self.deck.cards.len()
            invariant
                i <= self.deck.cards.len(),
                *self == *old(self),
                forall|k: int| 0 <= k < i ==> !filter_pred(*filter)(#[trigger] self.deck.cards@[k]),
            decreases self.deck.cards.len() - i,
        {
            if card_matches(&self.deck.cards[i], filter) {
                proof {
                    lemma_first_index_scan(self.deck.cards@, filter_pred(*filter), i as int);
                }
                let card = self.deck.cards.remove(i);
                self.hand.push(card);
                return Ok(());
            }
            i += 1;
        }
        proof {
            lemma_first_index_scan(self.deck.cards@, filter_pred(*filter), i as int);
        }
        Err(GameError::NoValidCard)
    }

    /// Moves the front card of the deck to the end of the hand; fails with
    /// `EmptyDeck`, changing nothing, when the deck is empty.
    pub fn draw_card(&mut self) -> (r: Result<(), GameError>)
        ensures
            old(self)@.deck.len() == 0 ==> r == Err::<(), GameError>(GameError::EmptyDeck)
                && final(self)@ == old(self)@,
            old(self)@.deck.len() > 0 ==> r == Ok::<(), GameError>(()) && final(self)@ == old(self)@.with_card_drawn(0),
    {
        if self.deck.cards.len() == 0 {
            return Err(GameError::EmptyDeck);
        }
        let card = self.deck.cards.remove(0);
        self.hand.push(card);
        Ok(())
    }

    pub fn add_power_boost(&mut self, amount: u32, duration: Duration)
        ensures
            final(self)@ == old(self)@.with_power_boost(amount, duration),
    {
        self.power_boosts.push((amount, duration));
    }

    /// Adds a health boost; health then stands at most at the new effective
    /// maximum.
    pub fn add_health_boost(&mut self, amount: u32, duration: Duration)
        ensures
            final(self)@ == old(self)@.with_health_boost(amount, duration),
    {
        self.health_boosts.push((amount, duration));
        let new_max = self.max_health();
        if new_max < self.health {
            self.health = new_max;
        }
    }

    /// Adds the positive parts of a buff: a power boost where `power > 0`,
    /// a health boost where `health > 0`.
    pub fn add_buff(&mut self, power: i32, health: i32, duration: Duration)
        ensures
            final(self)@ == old(self)@.with_buff(power, health, duration),
    {
        if power > 0 {
            self.add_power_boost(power as u32, duration);
        }
        if health > 0 {
            self.add_health_boost(health as u32, duration);
        }
    }

    /// Resets the per-turn counters and advances every timed modifier.
    pub fn update_turn(&mut self)
        ensures
            final(self)@ == old(self)@.after_turn(),
    {
        self.cards_played_this_turn = 0;
        self.mana_spent_this_turn = 0;
        self.update_durations();
    }

    fn update_durations(&mut self)
        ensures
            final(self)@ == (PlayerView {
                power_boosts: advance_modifiers(old(self)@.power_boosts),
                health_boosts: advance_modifiers(old(self)@.health_boosts),
                active_effects: advance_modifiers(old(self)@.active_effects),
                ..old(self)@
            }),
    {
        self.power_boosts = advance_list(&self.power_boosts);
        self.health_boosts = advance_list(&self.health_boosts);
        self.active_effects = advance_list(&self.active_effects);
    }
}

pub proof fn lemma_amount_sum_nonneg(s: Seq<(u32, Duration)>)
    ensures
        amount_sum(s) >= 0,
    decreases s.len(),
{
    if s.len() > 0 {
        lemma_amount_sum_nonneg(s.drop_last());
    }
}

pub proof fn lemma_card_power_sum_nonneg(s: Seq<Card>)
    ensures
        card_power_sum(s) >= 0,
    decreases s.len(),
{
    if s.len() > 0 {
        lemma_card_power_sum_nonneg(s.drop_last());
    }
}

/// A modifier added for one turn (`Temporary(1)`) is still there after one
/// turn advance, with no turns left, and is gone after the second; the
/// other modifiers advance as they would without it.
pub proof fn lemma_one_turn_modifier<T>(s: Seq<(T, Duration)>, a: T)
    ensures
        advance_modifiers(s.push((a, Duration::Temporary(1)))) == advance_modifiers(s).push(
            (a, Duration::Temporary(0)),
        ),
        advance_modifiers(advance_modifiers(s.push((a, Duration::Temporary(1)))))
            == advance_modifiers(advance_modifiers(s)),
{
    assert(s.push((a, Duration::Temporary(1))).drop_last() =~= s);
    let t = advance_modifiers(s).push((a, Duration::Temporary(0)));
    assert(t.drop_last() =~= advance_modifiers(s));
}

} // verus!
