//! The effect grammar, target resolution and effect application.
use vstd::prelude::*;

use crate::errors::GameError;
use crate::game_state::{player_index, GameState};
use crate::board::{cube_distance, neighbors_upto};
use crate::game_state::ids_unique;
use crate::models::{saturate, Player, PlayerView, Position};
use crate::models::{CardType, Rarity};
use rand::seq::IndexedRandom;
use vstd::std_specs::iter::IteratorSpec;
use std::collections::HashSet;

verus! {

/// The kinds of effect a player can carry as an active effect.
#[derive(Debug, Clone, Copy, PartialEq, Eq, Structural)]
pub enum EffectType {
    Damage,
    Heal,
    Draw,
    Boost,
    Buff,
}

/// An action a card performs when it is played.
#[derive(Debug, Clone, PartialEq)]
pub enum Effect {
    Damage(DamageEffect),
    Heal(HealEffect),
    Draw(DrawEffect),
    Boost(BoostEffect),
    BuffStats(BuffEffect),
}

/// A base amount, optionally raised by a scaling factor.
#[derive(Debug, Clone, Copy, PartialEq, Eq, Structural)]
pub struct EffectValue {
    pub base: u32,
    pub scaling: Option<ScalingFactor>,
}

/// What a value scales with. Each factor is given in hundredths: `150`
/// multiplies the count by one and a half.
#[derive(Debug, Clone, Copy, PartialEq, Eq, Structural)]
pub enum ScalingFactor {
    /// The board's number of levels.
    MountainLevel(i32),
    /// The number of cards in the target's hand.
    CardsInHand(i32),
    /// The number of cards the target played this turn.
    CardsPlayed(i32),
    /// The mana the target spent this turn.
    ManaSpent(i32),
}

/// Which players an effect reaches.
#[derive(Debug, PartialEq)]
pub enum EffectTarget {
    /// The player who plays the effect.
    Self_,
    /// One player, by identity.
    Specific(u128),
    /// Several players, by identity.
    Multiple(HashSet<u128>),
    /// The listed players, in the order listed.
    AllPlayers(Vec<u128>),
    /// A number of distinct players drawn at random.
    Random(u32),
    /// The players on the tiles next to the source's.
    Adjacent,
    /// The players within `radius` steps of the `center` player.
    Area { center: u128, radius: u32 },
    /// The players that meet a condition, at most `max_targets` of them.
    Conditional { condition: TargetCondition, max_targets: Option<u32> },
}

fn copy_id_set(set: &HashSet<u128>) -> (r: HashSet<u128>) {
    let mut out: HashSet<u128> = HashSet::new();
    for id in set.iter() {
        out.insert(*id);
    }
    out
}

impl Clone for EffectTarget {
    fn clone(&self) -> (r: EffectTarget) {
        match self {
            EffectTarget::Self_ => EffectTarget::Self_,
            EffectTarget::Specific(id) => EffectTarget::Specific(*id),
            EffectTarget::Multiple(set) => EffectTarget::Multiple(copy_id_set(set)),
            EffectTarget::AllPlayers(list) => EffectTarget::AllPlayers(list.clone()),
            EffectTarget::Random(n) => EffectTarget::Random(*n),
            EffectTarget::Adjacent => EffectTarget::Adjacent,
            EffectTarget::Area { center, radius } => EffectTarget::Area {
                center: *center,
                radius: *radius,
            },
            EffectTarget::Conditional { condition, max_targets } => EffectTarget::Conditional {
                condition: *condition,
                max_targets: *max_targets,
            },
        }
    }
}

/// A condition on a player for conditional targeting.
#[derive(Debug, Clone, Copy, PartialEq, Eq, Structural)]
pub enum TargetCondition {
    PowerGreaterThan(u32),
    PowerLessThan(u32),
    HasEffect(EffectType),
    IsRarity(Rarity),
}

#[derive(Debug, Clone, PartialEq)]
pub struct DamageEffect {
    pub value: EffectValue,
    pub target: EffectTarget,
    /// Carried for shields and armour, which this engine does not model.
    pub penetrating: bool,
}

#[derive(Debug, Clone, PartialEq)]
pub struct HealEffect {
    pub value: EffectValue,
    pub target: EffectTarget,
    /// Whether healing may raise health above the effective maximum.
    pub over_heal: bool,
}

#[derive(Debug, Clone, PartialEq)]
pub struct DrawEffect {
    pub cards: u32,
    pub target: EffectTarget,
    pub filter: Option<DrawFilter>,
}

#[derive(Debug, Clone, PartialEq)]
pub struct BoostEffect {
    pub value: EffectValue,
    pub target: EffectTarget,
    pub stat: BoostType,
    pub duration: Duration,
}

#[derive(Debug, Clone, PartialEq)]
pub struct BuffEffect {
    /// Only a positive amount is applied.
    pub power: i32,
    /// Only a positive amount is applied.
    pub health: i32,
    pub target: EffectTarget,
    pub duration: Duration,
}

/// Which stat a boost raises.
#[derive(Debug, Clone, Copy, PartialEq, Eq, Structural)]
pub enum BoostType {
    Power,
    Health,
    Both,
}

/// How long a modifier lasts.
#[derive(Debug, Clone, Copy, PartialEq, Eq, Structural)]
pub enum Duration {
    /// The number of turn advances left.
    Temporary(u32),
    /// Until the game decides the mountain has reached this level.
    UntilMountainLevel(u32),
    /// For the rest of the game.
    Permanent,
}

/// Which card a filtered draw takes.
#[derive(Debug, Clone, Copy, PartialEq, Eq, Structural)]
pub enum DrawFilter {
    Cost(CostFilter),
    Type(CardType),
    Rarity(Rarity),
}

#[derive(Debug, Clone, Copy, PartialEq, Eq, Structural)]
pub enum CostFilter {
    Equal(u32),
    LessThan(u32),
    GreaterThan(u32),
}

/// What a scaling factor adds for a count: the factor (in hundredths) times
/// the count, rounded toward zero; nothing where that is not positive; at
/// most the largest `u32`.
pub open spec fn scaled(factor: i32, count: int) -> int {
    if factor * count <= 0 {
        0
    } else {
        saturate((factor * count) / 100)
    }
}

/// What a scaling factor adds for an effect on `target`; a count of the
/// target's counts as zero where no player has that identity.
pub open spec fn scaling_amount(s: ScalingFactor, ps: Seq<PlayerView>, levels: u32, target: u128) -> int {
    let i = player_index(ps, target);
    match s {
        ScalingFactor::MountainLevel(f) => scaled(f, levels as int),
        ScalingFactor::CardsInHand(f) => if i < 0 {
            0
        } else {
            scaled(f, ps[i].hand.len() as int)
        },
        ScalingFactor::CardsPlayed(f) => if i < 0 {
            0
        } else {
            scaled(f, ps[i].cards_played_this_turn as int)
        },
        ScalingFactor::ManaSpent(f) => if i < 0 {
            0
        } else {
            scaled(f, ps[i].mana_spent_this_turn as int)
        },
    }
}

/// The amount of an effect value on `target`: the base plus what its scaling
/// adds, at most the largest `u32`.
pub open spec fn value_of(v: EffectValue, ps: Seq<PlayerView>, levels: u32, target: u128) -> int {
    match v.scaling {
        None => v.base as int,
        Some(s) => saturate(v.base + scaling_amount(s, ps, levels, target)),
    }
}

fn scale(factor: i32, count: u64) -> (r: u32)
    ensures
        r == scaled(factor, count as int),
{
    assert(-0x8000_0000 * 0x1_0000_0000_0000_0000 <= factor * count <= 0x8000_0000
        * 0x1_0000_0000_0000_0000) by (nonlinear_arith)
        requires
            -0x8000_0000 <= factor < 0x8000_0000,
            0 <= count < 0x1_0000_0000_0000_0000,
    ;
    let product: i128 = factor as i128 * count as i128;
    if product <= 0 {
        0
    } else {
        let q: i128 = product / 100;
        if q > u32::MAX as i128 {
            u32::MAX
        } else {
            q as u32
        }
    }
}

/// The amount of `value` for an effect on `target`.
pub fn calculate_value(value: &EffectValue, game_state: &GameState, target: u128) -> (r: u32)
    ensures
        r == value_of(*value, game_state.players_view(), game_state.mountain.levels, target),
{
    let base = value.base;
    match value.scaling {
        None => base,
        Some(scaling) => {
            let extra = match scaling {
                ScalingFactor::MountainLevel(f) => scale(f, game_state.mountain.levels as u64),
                ScalingFactor::CardsInHand(f) => match game_state.find_player(target) {
                    Some(i) => scale(f, game_state.players[i].hand.len() as u64),
                    None => 0,
                },
                ScalingFactor::CardsPlayed(f) => match game_state.find_player(target) {
                    Some(i) => scale(f, game_state.players[i].cards_played_this_turn as u64),
                    None => 0,
                },
                ScalingFactor::ManaSpent(f) => match game_state.find_player(target) {
                    Some(i) => scale(f, game_state.players[i].mana_spent_this_turn as u64),
                    None => 0,
                },
            };
            base.saturating_add(extra)
        },
    }
}

/// The outcome of one step of an effect on the players: their new states,
/// and whether the step succeeded.
pub type Outcome = (Seq<PlayerView>, Result<(), GameError>);

/// Damage on `target`: health goes down by the value, and stops at zero.
pub open spec fn damage_step(ps: Seq<PlayerView>, levels: u32, target: u128, v: EffectValue) -> Outcome {
    let i = player_index(ps, target);
    if i < 0 {
        (ps, Err(GameError::PlayerNotFound))
    } else {
        let d = value_of(v, ps, levels, target);
        let h = ps[i].health as int;
        let nh: int = if h > d {
            h - d
        } else {
            0
        };
        (ps.update(i, PlayerView { health: nh as u32, ..ps[i] }), Ok(()))
    }
}

/// Healing on `target`: a zero heal changes nothing; otherwise health goes
/// up by the value, up to the effective maximum health unless `over_heal`,
/// and at most to the largest `u32`.
pub open spec fn heal_step(ps: Seq<PlayerView>, levels: u32, target: u128, v: EffectValue, over_heal: bool) -> Outcome {
    let i = player_index(ps, target);
    if i < 0 {
        (ps, Err(GameError::PlayerNotFound))
    } else {
        let heal = value_of(v, ps, levels, target);
        let raised = ps[i].health + heal;
        let nh = if over_heal {
            saturate(raised)
        } else if raised <= ps[i].effective_max_health() {
            saturate(raised)
        } else {
            saturate(ps[i].effective_max_health())
        };
        if heal == 0 {
            (ps, Ok(()))
        } else {
            (ps.update(i, PlayerView { health: nh as u32, ..ps[i] }), Ok(()))
        }
    }
}

/// One draw: the front card, or the first card that passes the filter.
pub open spec fn draw_one(p: PlayerView, filter: Option<DrawFilter>) -> (PlayerView, Result<(), GameError>) {
    match filter {
        None => if p.deck.len() == 0 {
            (p, Err(GameError::EmptyDeck))
        } else {
            (p.with_card_drawn(0), Ok(()))
        },
        Some(f) => if p.first_match(f) < 0 {
            (p, Err(GameError::NoValidCard))
        } else {
            (p.with_card_drawn(p.first_match(f)), Ok(()))
        },
    }
}

/// `n` draws in a row, stopping at the first that fails.
pub open spec fn draw_n(p: PlayerView, n: nat, filter: Option<DrawFilter>) -> (PlayerView, Result<(), GameError>)
    decreases n,
{
    if n == 0 {
        (p, Ok(()))
    } else {
        let (q, r) = draw_n(p, (n - 1) as nat, filter);
        if r is Err {
            (q, r)
        } else {
            draw_one(q, filter)
        }
    }
}

pub open spec fn draw_step(ps: Seq<PlayerView>, target: u128, cards: u32, filter: Option<DrawFilter>) -> Outcome {
    let i = player_index(ps, target);
    if i < 0 {
        (ps, Err(GameError::PlayerNotFound))
    } else {
        let (q, r) = draw_n(ps[i], cards as nat, filter);
        (ps.update(i, q), r)
    }
}

/// A boost of the value on `target`'s power, health, or both.
pub open spec fn boost_step(ps: Seq<PlayerView>, levels: u32, target: u128, b: BoostEffect) -> Outcome {
    let i = player_index(ps, target);
    if i < 0 {
        (ps, Err(GameError::PlayerNotFound))
    } else {
        let amount = value_of(b.value, ps, levels, target) as u32;
        let p = ps[i];
        let q = match b.stat {
            BoostType::Power => p.with_power_boost(amount, b.duration),
            BoostType::Health => p.with_health_boost(amount, b.duration),
            BoostType::Both => p.with_power_boost(amount, b.duration).with_health_boost(
                amount,
                b.duration,
            ),
        };
        (ps.update(i, q), Ok(()))
    }
}

pub open spec fn buff_step(ps: Seq<PlayerView>, target: u128, b: BuffEffect) -> Outcome {
    let i = player_index(ps, target);
    if i < 0 {
        (ps, Err(GameError::PlayerNotFound))
    } else {
        (ps.update(i, ps[i].with_buff(b.power, b.health, b.duration)), Ok(()))
    }
}

/// An effect on one target.
pub open spec fn effect_step(e: Effect, ps: Seq<PlayerView>, levels: u32, target: u128) -> Outcome {
    match e {
        Effect::Damage(d) => damage_step(ps, levels, target, d.value),
        Effect::Heal(h) => heal_step(ps, levels, target, h.value, h.over_heal),
        Effect::Draw(d) => draw_step(ps, target, d.cards, d.filter),
        Effect::Boost(b) => boost_step(ps, levels, target, b),
        Effect::BuffStats(b) => buff_step(ps, target, b),
    }
}

/// An effect on each target in turn, stopping at the first that fails.
pub open spec fn apply_all(e: Effect, ps: Seq<PlayerView>, levels: u32, targets: Seq<u128>) -> Outcome
    decreases targets.len(),
{
    if targets.len() == 0 {
        (ps, Ok(()))
    } else {
        let (qs, r) = apply_all(e, ps, levels, targets.drop_last());
        if r is Err {
            (qs, r)
        } else {
            effect_step(e, qs, levels, targets.last())
        }
    }
}

/// Only the players of the game changed.
pub open spec fn same_frame(a: GameState, b: GameState) -> bool {
    &&& a.game_id == b.game_id
    &&& a.active_player == b.active_player
    &&& a.turn_number == b.turn_number
    &&& a.mountain == b.mountain
}

fn apply_damage(game_state: &mut GameState, target: u128, value: &EffectValue) -> (r: Result<(), GameError>)
    ensures
        (final(game_state).players_view(), r) == damage_step(
            old(game_state).players_view(),
            old(game_state).mountain.levels,
            target,
            *value,
        ),
        same_frame(*final(game_state), *old(game_state)),
{
    let ghost ps = game_state.players_view();
    let damage = calculate_value(value, game_state, target);
    let i = match game_state.find_player(target) {
        Some(i) => i,
        None => return Err(GameError::PlayerNotFound),
    };
    let nh = game_state.players[i].health.saturating_sub(damage);
    game_state.players[i].health = nh;
    assert(game_state.players_view() =~= ps.update(i as int, PlayerView { health: nh, ..ps[i as int] }));
    Ok(())
}

fn apply_heal(game_state: &mut GameState, target: u128, value: &EffectValue, over_heal: bool) -> (r: Result<(), GameError>)
    ensures
        (final(game_state).players_view(), r) == heal_step(
            old(game_state).players_view(),
            old(game_state).mountain.levels,
            target,
            *value,
            over_heal,
        ),
        same_frame(*final(game_state), *old(game_state)),
{
    let ghost ps = game_state.players_view();
    let heal = calculate_value(value, game_state, target);
    let i = match game_state.find_player(target) {
        Some(i) => i,
        None => return Err(GameError::PlayerNotFound),
    };
    if heal == 0 {
        return Ok(());
    }
    let raised = game_state.players[i].health.saturating_add(heal);
    let nh = if over_heal {
        raised
    } else {
        let max = game_state.players[i].max_health();
        if raised <= max {
            raised
        } else {
            max
        }
    };
    game_state.players[i].health = nh;
    assert(game_state.players_view() =~= ps.update(i as int, PlayerView { health: nh, ..ps[i as int] }));
    Ok(())
}

/// Once a draw has failed, further draws change nothing.
pub proof fn lemma_draw_n_stops(p: PlayerView, m: nat, n: nat, filter: Option<DrawFilter>)
    requires
        m <= n,
        draw_n(p, m, filter).1 is Err,
    ensures
        draw_n(p, n, filter) == draw_n(p, m, filter),
    decreases n - m,
{
    if m < n {
        lemma_draw_n_stops(p, m, (n - 1) as nat, filter);
    }
}

fn apply_draw(game_state: &mut GameState, target: u128, cards: u32, filter: &Option<DrawFilter>) -> (r: Result<(), GameError>)
    ensures
        (final(game_state).players_view(), r) == draw_step(old(game_state).players_view(), target, cards, *filter),
        same_frame(*final(game_state), *old(game_state)),
{
    let ghost ps = game_state.players_view();
    let i = match game_state.find_player(target) {
        Some(i) => i,
        None => return Err(GameError::PlayerNotFound),
    };
    let mut k: u32 = 0;
    while k < cards
        invariant
            k <= cards,
            i < game_state.players@.len(),
            i < ps.len(),
            i == player_index(ps, target),
            ps == old(game_state).players_view(),
            same_frame(*game_state, *old(game_state)),
            draw_n(ps[i as int], k as nat, *filter).1 is Ok,
            game_state.players_view() == ps.update(i as int, draw_n(ps[i as int], k as nat, *filter).0),
        decreases cards - k,
    {
        let ghost before = game_state.players_view();
        let ghost pre = game_state.players@[i as int]@;
        assert(pre == before[i as int]);
        assert(pre == draw_n(ps[i as int], k as nat, *filter).0);
        let r = match filter {
            Some(f) => {
                let r = game_state.players[i].draw_filtered(f);
                assert((game_state.players@[i as int]@, r) == draw_one(pre, *filter));
                r
            },
            None => {
                let r = game_state.players[i].draw_card();
                assert((game_state.players@[i as int]@, r) == draw_one(pre, *filter));
                r
            },
        };
        assert(game_state.players_view() =~= before.update(i as int, game_state.players@[i as int]@));
        assert(draw_n(ps[i as int], (k + 1) as nat, *filter) == draw_one(draw_n(ps[i as int], k as nat, *filter).0, *filter));
        assert((game_state.players@[i as int]@, r) == draw_one(draw_n(ps[i as int], k as nat, *filter).0, *filter));
        if r.is_err() {
            proof {
                lemma_draw_n_stops(ps[i as int], (k + 1) as nat, cards as nat, *filter);
            }
            assert(game_state.players_view() =~= ps.update(i as int, draw_n(ps[i as int], (k + 1) as nat, *filter).0));
            return r;
        }
        k += 1;
        assert(game_state.players_view() =~= ps.update(i as int, draw_n(ps[i as int], k as nat, *filter).0));
    }
    Ok(())
}

fn apply_boost(game_state: &mut GameState, target: u128, boost_effect: &BoostEffect) -> (r: Result<(), GameError>)
    ensures
        (final(game_state).players_view(), r) == boost_step(
            old(game_state).players_view(),
            old(game_state).mountain.levels,
            target,
            *boost_effect,
        ),
        same_frame(*final(game_state), *old(game_state)),
{
    let ghost ps = game_state.players_view();
    let amount = calculate_value(&boost_effect.value, game_state, target);
    let i = match game_state.find_player(target) {
        Some(i) => i,
        None => return Err(GameError::PlayerNotFound),
    };
    match boost_effect.stat {
        BoostType::Power => game_state.players[i].add_power_boost(amount, boost_effect.duration),
        BoostType::Health => game_state.players[i].add_health_boost(amount, boost_effect.duration),
        BoostType::Both => {
            game_state.players[i].add_power_boost(amount, boost_effect.duration);
            game_state.players[i].add_health_boost(amount, boost_effect.duration);
        },
    }
    assert(game_state.players_view() =~= ps.update(i as int, game_state.players@[i as int]@));
    Ok(())
}

fn apply_buff(game_state: &mut GameState, target: u128, buff_effect: &BuffEffect) -> (r: Result<(), GameError>)
    ensures
        (final(game_state).players_view(), r) == buff_step(old(game_state).players_view(), target, *buff_effect),
        same_frame(*final(game_state), *old(game_state)),
{
    let ghost ps = game_state.players_view();
    let i = match game_state.find_player(target) {
        Some(i) => i,
        None => return Err(GameError::PlayerNotFound),
    };
    game_state.players[i].add_buff(buff_effect.power, buff_effect.health, buff_effect.duration);
    assert(game_state.players_view() =~= ps.update(i as int, game_state.players@[i as int]@));
    Ok(())
}

/// The members of a set of identities, each once, in the set's own order.
fn ids_of_set(set: &HashSet<u128>) -> (r: Vec<u128>)
    ensures
        r@.no_duplicates(),
        r@.to_set() == set@,
{
    broadcast use vstd::std_specs::hash::group_hash_axioms;
    if set.len() == 0 {
        proof {
            let s = vstd::std_specs::hash::spec_hash_keys_iter(set).remaining().unref();
            vstd::seq_lib::seq_to_set_is_finite(s);
            set@.lemma_len0_is_empty();
            assert(Seq::<u128>::empty().to_set() =~= set@);
        }
        return Vec::new();
    }
    let mut out: Vec<u128> = Vec::new();
    for id in it: set.iter()
        invariant
            it.seq().unref().to_set() == set@,
            it.seq().unref().no_duplicates(),
            it.seq().len() == set@.len(),
            set@.len() > 0,
            out@.len() == it.index(),
            forall|k: int| 0 <= k < it.index() ==> out@[k] == *it.seq()[k],
            it.index() == it.seq().len() ==> out@ == it.seq().unref(),
    {
        out.push(*id);
        assert(it.index() + 1 == it.seq().len() ==> out@ =~= it.seq().unref());
    }
    out
}

/// `amount` distinct entries of `ids`, drawn at random.
///
/// Relies on `rand::seq::IndexedRandom::choose_multiple` with the thread-local
/// generator `rand::rng()`: it samples `amount` distinct indices (at most the
/// length) and yields the entries at them.
#[verifier::external_body]
fn choose_ids(ids: &Vec<u128>, amount: usize) -> (r: Vec<u128>)
    requires
        amount <= ids@.len(),
    ensures
        r@.len() == amount,
        forall|k: int| 0 <= k < r@.len() ==> ids@.contains(#[trigger] r@[k]),
        ids@.no_duplicates() ==> r@.no_duplicates(),
{
    ids.choose_multiple(&mut rand::rng(), amount).copied().collect()
}

/// The identities of the players that satisfy `p`, in player order.
pub open spec fn ids_where(ps: Seq<PlayerView>, p: spec_fn(PlayerView) -> bool) -> Seq<u128>
    decreases ps.len(),
{
    if ps.len() == 0 {
        Seq::empty()
    } else {
        let r = ids_where(ps.drop_last(), p);
        if p(ps.last()) {
            r.push(ps.last().id)
        } else {
            r
        }
    }
}

/// The identities of all players, in order.
pub open spec fn all_ids(ps: Seq<PlayerView>) -> Seq<u128> {
    ps.map_values(|p: PlayerView| p.id)
}

/// A player on one of the tiles next to `pos`.
pub open spec fn next_to(levels: u32, pos: Position) -> spec_fn(PlayerView) -> bool {
    |q: PlayerView| neighbors_upto(levels, pos.x, pos.y, pos.z, 6).contains(q.position)
}

/// A player at most `radius` steps from `center`.
pub open spec fn within(center: Position, radius: u32) -> spec_fn(PlayerView) -> bool {
    |q: PlayerView| cube_distance(center, q.position) <= radius
}

/// A player holding a card of rarity `r` or rarer.
pub open spec fn holds_rarity(p: PlayerView, r: Rarity) -> bool {
    exists|k: int| 0 <= k < p.hand.len() && (#[trigger] p.hand[k]).rarity.rank() >= r.rank()
}

/// A player that meets a targeting condition; power counts as at most the
/// largest `u32`.
pub open spec fn meets(c: TargetCondition) -> spec_fn(PlayerView) -> bool {
    |q: PlayerView|
        match c {
            TargetCondition::PowerGreaterThan(t) => saturate(q.power()) > t,
            TargetCondition::PowerLessThan(t) => saturate(q.power()) < t,
            TargetCondition::HasEffect(e) => q.has_effect(e),
            TargetCondition::IsRarity(r) => holds_rarity(q, r),
        }
}

/// The first `max` entries of `s` where a maximum is given.
pub open spec fn truncated(s: Seq<u128>, max: Option<u32>) -> Seq<u128> {
    match max {
        Some(m) => if s.len() > m {
            s.take(m as int)
        } else {
            s
        },
        None => s,
    }
}

/// Whether `r` is a correct resolution of `target` for an effect played by
/// `source` on these players and a board of `levels` levels. It is one
/// resolution for each target but `Multiple` (any order of the set) and
/// `Random` (any choice of distinct players).
pub open spec fn resolves_to(
    target: EffectTarget,
    ps: Seq<PlayerView>,
    levels: u32,
    source: u128,
    r: Result<Seq<u128>, GameError>,
) -> bool {
    match target {
        EffectTarget::Self_ => r == Ok::<Seq<u128>, GameError>(seq![source]),
        EffectTarget::Specific(id) => r == Ok::<Seq<u128>, GameError>(seq![id]),
        EffectTarget::Multiple(set) => match r {
            Ok(v) => v.no_duplicates() && v.to_set() == set@,
            Err(_) => false,
        },
        EffectTarget::AllPlayers(list) => r == Ok::<Seq<u128>, GameError>(list@),
        EffectTarget::Random(n) => if ps.len() < n {
            r == Err::<Seq<u128>, GameError>(GameError::InvalidTarget)
        } else {
            match r {
                Ok(v) => {
                    &&& v.len() == n
                    &&& forall|k: int| 0 <= k < v.len() ==> all_ids(ps).contains(#[trigger] v[k])
                    &&& ids_unique(ps) ==> v.no_duplicates()
                },
                Err(_) => false,
            }
        },
        EffectTarget::Adjacent => {
            let i = player_index(ps, source);
            if i < 0 {
                r == Err::<Seq<u128>, GameError>(GameError::PlayerNotFound)
            } else {
                r == Ok::<Seq<u128>, GameError>(ids_where(ps, next_to(levels, ps[i].position)))
            }
        },
        EffectTarget::Area { center, radius } => {
            let i = player_index(ps, center);
            if i < 0 {
                r == Err::<Seq<u128>, GameError>(GameError::PlayerNotFound)
            } else {
                r == Ok::<Seq<u128>, GameError>(ids_where(ps, within(ps[i].position, radius)))
            }
        },
        EffectTarget::Conditional { condition, max_targets } => r == Ok::<Seq<u128>, GameError>(
            truncated(ids_where(ps, meets(condition)), max_targets),
        ),
    }
}

/// A resolution with its list of identities as a sequence.
pub open spec fn resolution_view(r: Result<Vec<u128>, GameError>) -> Result<Seq<u128>, GameError> {
    match r {
        Ok(v) => Ok(v@),
        Err(e) => Err(e),
    }
}

/// Which players a filtering target keeps.
enum Selector {
    NextTo(Vec<Position>),
    Within(Position, u32),
    Meets(TargetCondition),
}

impl Selector {
    spec fn keeps_spec(&self, q: PlayerView) -> bool {
        match self {
            Selector::NextTo(v) => v@.contains(q.position),
            Selector::Within(c, radius) => within(*c, *radius)(q),
            Selector::Meets(c) => meets(*c)(q),
        }
    }

    spec fn pred(&self) -> spec_fn(PlayerView) -> bool {
        |q: PlayerView| self.keeps_spec(q)
    }

    fn keeps(&self, mountain: &crate::board::Mountain, p: &Player) -> (r: bool)
        ensures
            r == self.pred()(p@),
    {
        match self {
            Selector::NextTo(v) => {
                let mut k: usize = 0;
                while k < v.len()
                    invariant
                        k <= v.len(),
                        self.keeps_spec(p@) == v@.contains(p@.position),
                        forall|j: int| 0 <= j < k ==> v@[j] != p.position,
                    decreases v.len() - k,
                {
                    if v[k] == p.position {
                        assert(v@[k as int] == p@.position);
                        return true;
                    }
                    k += 1;
                }
                assert(!v@.contains(p@.position));
                false
            },
            Selector::Within(c, radius) => {
                let d = mountain.calculate_distance(*c, p.position);
                assert(self.keeps_spec(p@) == (d <= *radius));
                d <= *radius
            },
            Selector::Meets(c) => match c {
                TargetCondition::PowerGreaterThan(t) => {
                    let power = p.get_power();
                    assert(self.keeps_spec(p@) == (power > *t));
                    power > *t
                },
                TargetCondition::PowerLessThan(t) => {
                    let power = p.get_power();
                    assert(self.keeps_spec(p@) == (power < *t));
                    power < *t
                },
                TargetCondition::HasEffect(e) => {
                    let has = p.has_effect(e);
                    assert(self.keeps_spec(p@) == has);
                    has
                },
                TargetCondition::IsRarity(r) => {
                    let mut k: usize = 0;
                    while k < p.hand.len()
                        invariant
                            k <= p.hand.len(),
                            self.keeps_spec(p@) == holds_rarity(p@, *r),
                            forall|j: int| 0 <= j < k ==> (#[trigger] p.hand@[j]).rarity.rank() < r.rank(),
                        decreases p.hand.len() - k,
                    {
                        if p.hand[k].rarity.at_least(r) {
                            assert(p@.hand[k as int].rarity.rank() >= r.rank());
                            return true;
                        }
                        k += 1;
                    }
                    false
                },
            },
        }
    }
}

fn select_ids(game_state: &GameState, selector: &Selector) -> (r: Vec<u128>)
    ensures
        r@ == ids_where(game_state.players_view(), selector.pred()),
{
    let ghost ps = game_state.players_view();
    let mut out: Vec<u128> = Vec::new();
    let mut i: usize = 0;
    while i < game_state.players.len()
        invariant
            i <= game_state.players.len(),
            ps == game_state.players_view(),
            out@ == ids_where(ps.take(i as int), selector.pred()),
        decreases game_state.players.len() - i,
    {
        assert(ps.take(i + 1).drop_last() =~= ps.take(i as int));
        assert(ps.take(i + 1).last() == game_state.players@[i as int]@);
        if selector.keeps(&game_state.mountain, &game_state.players[i]) {
            out.push(game_state.players[i].id);
        }
        i += 1;
    }
    assert(ps.take(game_state.players.len() as int) =~= ps);
    out
}

fn all_player_ids(game_state: &GameState) -> (r: Vec<u128>)
    ensures
        r@ == all_ids(game_state.players_view()),
{
    let mut out: Vec<u128> = Vec::new();
    let mut i: usize = 0;
    while i < game_state.players.len()
        invariant
            i <= game_state.players.len(),
            out@ == all_ids(game_state.players_view()).take(i as int),
        decreases game_state.players.len() - i,
    {
        out.push(game_state.players[i].id);
        i += 1;
        assert(out@ =~= all_ids(game_state.players_view()).take(i as int));
    }
    assert(out@ =~= all_ids(game_state.players_view()));
    out
}

fn copy_ids(v: &Vec<u128>) -> (r: Vec<u128>)
    ensures
        r@ == v@,
{
    let mut out: Vec<u128> = Vec::new();
    let mut i: usize = 0;
    while i < v.len()
        invariant
            i <= v.len(),
            out@ == v@.take(i as int),
        decreases v.len() - i,
    {
        out.push(v[i]);
        i += 1;
        assert(out@ =~= v@.take(i as int));
    }
    assert(out@ =~= v@);
    out
}

/// The identities an effect played by `source` reaches, in the order the
/// effect is applied to them. Reads the game and changes nothing.
pub fn resolve_targets(target: &EffectTarget, game_state: &GameState, source: u128) -> (r: Result<Vec<u128>, GameError>)
    ensures
        resolves_to(*target, game_state.players_view(), game_state.mountain.levels, source, resolution_view(r)),
{
    let ghost ps = game_state.players_view();
    match target {
        EffectTarget::Self_ => {
            let mut v: Vec<u128> = Vec::new();
            v.push(source);
            assert(v@ =~= seq![source]);
            Ok(v)
        },
        EffectTarget::Specific(id) => {
            let mut v: Vec<u128> = Vec::new();
            v.push(*id);
            assert(v@ =~= seq![*id]);
            Ok(v)
        },
        EffectTarget::Multiple(set) => Ok(ids_of_set(set)),
        EffectTarget::AllPlayers(list) => Ok(copy_ids(list)),
        EffectTarget::Random(n) => {
            let available = all_player_ids(game_state);
            if available.len() < *n as usize {
                return Err(GameError::InvalidTarget);
            }
            proof {
                if ids_unique(ps) {
                    assert forall|a: int, b: int| 0 <= a < b < available@.len() implies available@[a] != available@[b] by {
                        assert(available@[a] == ps[a].id);
                        assert(available@[b] == ps[b].id);
                    }
                }
            }
            Ok(choose_ids(&available, *n as usize))
        },
        EffectTarget::Adjacent => {
            let i = match game_state.find_player(source) {
                Some(i) => i,
                None => return Err(GameError::PlayerNotFound),
            };
            let pos = game_state.players[i].position;
            let near = game_state.mountain.get_neighbors(pos.x, pos.y, pos.z);
            let selector = Selector::NextTo(near);
            let r = select_ids(game_state, &selector);
            assert(selector.pred() =~= next_to(game_state.mountain.levels, pos));
            Ok(r)
        },
        EffectTarget::Area { center, radius } => {
            let i = match game_state.find_player(*center) {
                Some(i) => i,
                None => return Err(GameError::PlayerNotFound),
            };
            let selector = Selector::Within(game_state.players[i].position, *radius);
            let r = select_ids(game_state, &selector);
            assert(selector.pred() =~= within(game_state.players@[i as int].position, *radius));
            Ok(r)
        },
        EffectTarget::Conditional { condition, max_targets } => {
            let selector = Selector::Meets(*condition);
            let mut r = select_ids(game_state, &selector);
            assert(selector.pred() =~= meets(*condition));
            if let Some(max) = max_targets {
                if r.len() > *max as usize {
                    r.truncate(*max as usize);
                }
            }
            Ok(r)
        },
    }
}

/// Once an effect has failed on a target, the later targets change nothing.
pub proof fn lemma_apply_all_stops(e: Effect, ps: Seq<PlayerView>, levels: u32, targets: Seq<u128>, m: int, n: int)
    requires
        0 <= m <= n <= targets.len(),
        apply_all(e, ps, levels, targets.take(m)).1 is Err,
    ensures
        apply_all(e, ps, levels, targets.take(n)) == apply_all(e, ps, levels, targets.take(m)),
    decreases n - m,
{
    if m < n {
        lemma_apply_all_stops(e, ps, levels, targets, m, n - 1);
        assert(targets.take(n).drop_last() =~= targets.take(n - 1));
    }
}

impl Effect {
    /// The target specification an effect carries.
    pub open spec fn target_spec(&self) -> EffectTarget {
        match self {
            Effect::Damage(d) => d.target,
            Effect::Heal(h) => h.target,
            Effect::Draw(d) => d.target,
            Effect::Boost(b) => b.target,
            Effect::BuffStats(b) => b.target,
        }
    }

    fn target(&self) -> (r: &EffectTarget)
        ensures
            *r == self.target_spec(),
    {
        match self {
            Effect::Damage(d) => &d.target,
            Effect::Heal(h) => &h.target,
            Effect::Draw(d) => &d.target,
            Effect::Boost(b) => &b.target,
            Effect::BuffStats(b) => &b.target,
        }
    }

    fn apply_one(&self, game_state: &mut GameState, target: u128) -> (r: Result<(), GameError>)
        ensures
            (final(game_state).players_view(), r) == effect_step(
                *self,
                old(game_state).players_view(),
                old(game_state).mountain.levels,
                target,
            ),
            same_frame(*final(game_state), *old(game_state)),
    {
        match self {
            Effect::Damage(d) => apply_damage(game_state, target, &d.value),
            Effect::Heal(h) => apply_heal(game_state, target, &h.value, h.over_heal),
            Effect::Draw(d) => apply_draw(game_state, target, d.cards, &d.filter),
            Effect::Boost(b) => apply_boost(game_state, target, b),
            Effect::BuffStats(b) => apply_buff(game_state, target, b),
        }
    }

    /// Applies the effect to each target in turn, and stops at the first
    /// that fails, whose error it returns; the earlier targets keep what
    /// they got. Only the players change.
    pub fn apply_to_targets(&self, game_state: &mut GameState, targets: &Vec<u128>) -> (r: Result<(), GameError>)
        ensures
            (final(game_state).players_view(), r) == apply_all(
                *self,
                old(game_state).players_view(),
                old(game_state).mountain.levels,
                targets@,
            ),
            same_frame(*final(game_state), *old(game_state)),
    {
        let ghost ps = game_state.players_view();
        let ghost levels = game_state.mountain.levels;
        let mut i: usize = 0;
        while i < targets.len()
            invariant
                i <= targets.len(),
                ps == old(game_state).players_view(),
                levels == old(game_state).mountain.levels,
                same_frame(*game_state, *old(game_state)),
                (game_state.players_view(), Ok::<(), GameError>(())) == apply_all(*self, ps, levels, targets@.take(i as int)),
            decreases targets.len() - i,
        {
            assert(targets@.take(i + 1).drop_last() =~= targets@.take(i as int));
            let r = self.apply_one(game_state, targets[i]);
            if r.is_err() {
                proof {
                    lemma_apply_all_stops(*self, ps, levels, targets@, i + 1, targets@.len() as int);
                    assert(targets@.take(targets@.len() as int) =~= targets@);
                }
                return r;
            }
            i += 1;
        }
        assert(targets@.take(targets@.len() as int) =~= targets@);
        Ok(())
    }

    /// Plays the effect for `source`: resolves its targets, then applies it
    /// to each in turn, failing at the first target that fails. Where the
    /// targets cannot be resolved it fails and changes nothing.
    pub fn apply(&self, game_state: &mut GameState, source: u128) -> (r: Result<(), GameError>)
        ensures
            exists|res: Result<Seq<u128>, GameError>|
                #![trigger resolves_to(self.target_spec(), old(game_state).players_view(), old(game_state).mountain.levels, source, res)]
                resolves_to(
                    self.target_spec(),
                    old(game_state).players_view(),
                    old(game_state).mountain.levels,
                    source,
                    res,
                ) && match res {
                    Err(e) => r == Err::<(), GameError>(e) && *final(game_state) == *old(game_state),
                    Ok(ts) => (final(game_state).players_view(), r) == apply_all(
                        *self,
                        old(game_state).players_view(),
                        old(game_state).mountain.levels,
                        ts,
                    ) && same_frame(*final(game_state), *old(game_state)),
                },
    {
        let targets = match resolve_targets(self.target(), game_state, source) {
            Ok(t) => t,
            Err(e) => {
                assert(resolves_to(self.target_spec(), game_state.players_view(), game_state.mountain.levels, source, Err(e)));
                return Err(e);
            },
        };
        let ghost res = Ok::<Seq<u128>, GameError>(targets@);
        let r = self.apply_to_targets(game_state, &targets);
        assert(resolves_to(self.target_spec(), old(game_state).players_view(), old(game_state).mountain.levels, source, res));
        r
    }
}

/// A scaled amount is never negative.
proof fn lemma_scaled_nonneg(factor: i32, count: int)
    ensures
        scaled(factor, count) >= 0,
{
    if factor * count > 0 {
        assert((factor * count) / 100 >= 0) by (nonlinear_arith)
            requires
                factor * count > 0,
        ;
    }
}

/// The amount of an effect value is never negative.
proof fn lemma_value_nonneg(v: EffectValue, ps: Seq<PlayerView>, levels: u32, target: u128)
    ensures
        value_of(v, ps, levels, target) >= 0,
{
    if let Some(s) = v.scaling {
        let i = player_index(ps, target);
        match s {
            ScalingFactor::MountainLevel(f) => lemma_scaled_nonneg(f, levels as int),
            ScalingFactor::CardsInHand(f) => if i >= 0 {
                lemma_scaled_nonneg(f, ps[i].hand.len() as int)
            },
            ScalingFactor::CardsPlayed(f) => if i >= 0 {
                lemma_scaled_nonneg(f, ps[i].cards_played_this_turn as int)
            },
            ScalingFactor::ManaSpent(f) => if i >= 0 {
                lemma_scaled_nonneg(f, ps[i].mana_spent_this_turn as int)
            },
        }
    }
}

/// Damage on a player that exists always succeeds, and takes health down to
/// the difference with the damage, or to zero where the damage is larger.
pub proof fn lemma_damage_saturates(ps: Seq<PlayerView>, levels: u32, target: u128, v: EffectValue)
    requires
        player_index(ps, target) >= 0,
    ensures
        ({
            let i = player_index(ps, target);
            let (qs, r) = damage_step(ps, levels, target, v);
            let d = value_of(v, ps, levels, target);
            &&& r == Ok::<(), GameError>(())
            &&& qs[i].health == (if ps[i].health >= d { ps[i].health - d } else { 0 })
        }),
{
    crate::models::lemma_first_index_meaning(ps, crate::game_state::has_id(target));
}

/// Healing without `over_heal` never leaves health above both its old value
/// and the effective maximum, and a heal that does anything leaves it at most
/// at the effective maximum. With `over_heal` a heal that fits in a `u32`
/// adds in full, past the maximum too.
pub proof fn lemma_heal_cap(ps: Seq<PlayerView>, levels: u32, target: u128, v: EffectValue)
    requires
        player_index(ps, target) >= 0,
    ensures
        ({
            let i = player_index(ps, target);
            let heal = value_of(v, ps, levels, target);
            let capped = heal_step(ps, levels, target, v, false).0[i].health;
            let free = heal_step(ps, levels, target, v, true).0[i].health;
            &&& capped <= ps[i].health || capped <= ps[i].effective_max_health()
            &&& heal > 0 ==> capped <= ps[i].effective_max_health()
            &&& ps[i].health + heal <= u32::MAX ==> free == ps[i].health + heal
        }),
{
    lemma_value_nonneg(v, ps, levels, target);
    crate::models::lemma_first_index_meaning(ps, crate::game_state::has_id(target));
    crate::models::lemma_amount_sum_nonneg(ps[player_index(ps, target)].health_boosts);
}

/// Random targeting asks for more players than the game has: it fails with
/// `InvalidTarget`.
pub proof fn lemma_random_too_many(ps: Seq<PlayerView>, levels: u32, source: u128, n: u32, r: Result<Seq<u128>, GameError>)
    requires
        ps.len() < n,
        resolves_to(EffectTarget::Random(n), ps, levels, source, r),
    ensures
        r == Err::<Seq<u128>, GameError>(GameError::InvalidTarget),
{
}

/// Random targeting of exactly as many players as the game has reaches all
/// of them.
pub proof fn lemma_random_all(ps: Seq<PlayerView>, levels: u32, source: u128, n: u32, v: Seq<u128>)
    requires
        ids_unique(ps),
        ps.len() == n,
        resolves_to(EffectTarget::Random(n), ps, levels, source, Ok(v)),
    ensures
        v.to_set() == all_ids(ps).to_set(),
{
    let ids = all_ids(ps);
    assert(ids.no_duplicates()) by {
        assert forall|a: int, b: int| 0 <= a < ids.len() && 0 <= b < ids.len() && a != b implies ids[a] != ids[b] by {
            if a < b {
                assert(ps[a].id != ps[b].id);
            } else {
                assert(ps[b].id != ps[a].id);
            }
        }
    }
    v.unique_seq_to_set();
    ids.unique_seq_to_set();
    vstd::seq_lib::seq_to_set_is_finite(v);
    vstd::seq_lib::seq_to_set_is_finite(ids);
    assert(v.to_set().subset_of(ids.to_set())) by {
        assert forall|x: u128| v.to_set().contains(x) implies ids.to_set().contains(x) by {
            let k = choose|k: int| 0 <= k < v.len() && v[k] == x;
            assert(ids.contains(v[k]));
        }
    }
    vstd::set_lib::lemma_subset_equality(v.to_set(), ids.to_set());
}

/// A filter that keeps more players selects every identity the narrower one
/// does, and at least as many.
pub proof fn lemma_ids_where_grows(ps: Seq<PlayerView>, p: spec_fn(PlayerView) -> bool, q: spec_fn(PlayerView) -> bool)
    requires
        forall|x: PlayerView| #[trigger] p(x) ==> q(x),
    ensures
        ids_where(ps, p).len() <= ids_where(ps, q).len(),
        ids_where(ps, p).to_set().subset_of(ids_where(ps, q).to_set()),
    decreases ps.len(),
{
    if ps.len() > 0 {
        lemma_ids_where_grows(ps.drop_last(), p, q);
        let a = ids_where(ps.drop_last(), p);
        let b = ids_where(ps.drop_last(), q);
        let a2 = ids_where(ps, p);
        let b2 = ids_where(ps, q);
        assert forall|x: u128| a2.to_set().contains(x) implies b2.to_set().contains(x) by {
            let k = choose|k: int| 0 <= k < a2.len() && a2[k] == x;
            if k < a.len() {
                assert(a2[k] == a[k]);
                assert(a.to_set().contains(x));
                let j = choose|j: int| 0 <= j < b.len() && b[j] == x;
                assert(b2[j] == b[j]);
            } else {
                assert(b2[b2.len() - 1] == ps.last().id);
            }
        }
    }
}

/// Area targeting with a larger radius reaches every player a smaller
/// radius reaches, and so at least as many.
pub proof fn lemma_area_grows(
    ps: Seq<PlayerView>,
    levels: u32,
    source: u128,
    center: u128,
    r1: u32,
    r2: u32,
    v1: Seq<u128>,
    v2: Seq<u128>,
)
    requires
        r1 <= r2,
        resolves_to(EffectTarget::Area { center, radius: r1 }, ps, levels, source, Ok(v1)),
        resolves_to(EffectTarget::Area { center, radius: r2 }, ps, levels, source, Ok(v2)),
    ensures
        v1.len() <= v2.len(),
        v1.to_set().subset_of(v2.to_set()),
{
    let i = player_index(ps, center);
    let c = ps[i].position;
    lemma_ids_where_grows(ps, within(c, r1), within(c, r2));
}

} // verus!
