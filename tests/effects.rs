use mountain_cards::effects::{
    BoostEffect, BoostType, BuffEffect, DamageEffect, DrawEffect, DrawFilter, Duration, EffectType,
    EffectValue, HealEffect, ScalingFactor, TargetCondition,
};
use mountain_cards::effects::{calculate_value, resolve_targets};
use mountain_cards::models::{CardType, Mountain, Position};
use mountain_cards::{Card, Deck, Effect, EffectTarget, GameError, GameState, Player, Rarity};
use std::collections::HashSet;

fn new_id() -> u128 {
    uuid::Uuid::new_v4().as_u128()
}

fn player_at(id: u128, name: &str, position: Position) -> Player {
    Player {
        id,
        name: name.to_string(),
        health: 30,
        hand: vec![],
        deck: Deck { cards: vec![], owner_id: id },
        mana: 0,
        position,
        max_health: 30,
        active_effects: vec![],
        cards_played_this_turn: 0,
        health_boosts: vec![],
        power_boosts: vec![],
        mana_spent_this_turn: 0,
    }
}

fn origin() -> Position {
    Position { x: 0, y: 0, z: 0, level: 0 }
}

fn card(cost: u32, power: u32, rarity: Rarity) -> Card {
    Card {
        id: new_id(),
        name: "Test Card".to_string(),
        cost,
        power,
        rarity,
        effects: vec![],
        card_type: CardType::Spell,
    }
}

fn two_player_game() -> (GameState, u128, u128) {
    let a = new_id();
    let b = new_id();
    let game = GameState::new(player_at(a, "Player 1", origin()), player_at(b, "Player 2", origin()));
    (game, a, b)
}

fn plain(base: u32) -> EffectValue {
    EffectValue { base, scaling: None }
}

#[test]
fn test_apply_damage() {
    let player1 = player_at(new_id(), "Player 1", origin());
    let player2 = player_at(new_id(), "Player 2", origin());
    let mut game_state = GameState::new(player1, player2);
    let card = Card {
        id: new_id(),
        name: "Test Card".to_string(),
        cost: 1,
        power: 1,
        rarity: Rarity::Common,
        effects: vec![],
        card_type: CardType::Spell,
    };

    let player_id = new_id();
    let target_id = new_id();

    let mut source = player_at(player_id, "Test Player", origin());
    source.hand = vec![card.clone()];
    game_state.insert_player(source);
    game_state.insert_player(player_at(target_id, "Target Player", origin()));

    let damage_effect = DamageEffect {
        value: EffectValue { base: 5, scaling: None },
        target: EffectTarget::Specific(target_id),
        penetrating: false,
    };

    let effect = Effect::Damage(damage_effect);

    effect.apply(&mut game_state, player_id).unwrap();

    assert_eq!(game_state.player(target_id).unwrap().health, 25);
}

#[test]
fn test_new_game_state() {
    let player1 = Player::new("Player 1".to_string(), Deck { cards: vec![], owner_id: new_id() });
    let player2 = Player::new("Player 2".to_string(), Deck { cards: vec![], owner_id: new_id() });
    let game_state = GameState::new(player1.clone(), player2);

    assert_eq!(game_state.players.len(), 2);
    assert_eq!(game_state.active_player, player1.id);
    assert_eq!(game_state.turn_number, 1);
}

#[test]
fn damage_hits_target_and_spares_source() {
    let (mut game, a, b) = two_player_game();
    let effect = Effect::Damage(DamageEffect { value: plain(5), target: EffectTarget::Specific(b), penetrating: false });
    effect.apply(&mut game, a).unwrap();
    assert_eq!(game.player(b).unwrap().health, 25);
    assert_eq!(game.player(a).unwrap().health, 30);
}

#[test]
fn damage_stops_at_zero_health() {
    let (mut game, a, b) = two_player_game();
    let mut weak = player_at(b, "Weak", origin());
    weak.health = 3;
    game.insert_player(weak);
    let effect = Effect::Damage(DamageEffect { value: plain(10), target: EffectTarget::Specific(b), penetrating: true });
    assert_eq!(effect.apply(&mut game, a), Ok(()));
    assert_eq!(game.player(b).unwrap().health, 0);
}

#[test]
fn damage_on_missing_player_fails() {
    let (mut game, a, _) = two_player_game();
    let effect = Effect::Damage(DamageEffect { value: plain(1), target: EffectTarget::Specific(7), penetrating: false });
    assert_eq!(effect.apply(&mut game, a), Err(GameError::PlayerNotFound));
}

#[test]
fn heal_is_capped_unless_over_heal() {
    let (mut game, a, _) = two_player_game();
    let mut hurt = player_at(a, "Hurt", origin());
    hurt.health = 25;
    game.insert_player(hurt);
    let capped = Effect::Heal(HealEffect { value: plain(10), target: EffectTarget::Self_, over_heal: false });
    capped.apply(&mut game, a).unwrap();
    assert_eq!(game.player(a).unwrap().health, 30);
    let free = Effect::Heal(HealEffect { value: plain(10), target: EffectTarget::Self_, over_heal: true });
    free.apply(&mut game, a).unwrap();
    assert_eq!(game.player(a).unwrap().health, 40);
    // A zero heal leaves an over-healed player alone.
    let zero = Effect::Heal(HealEffect { value: plain(0), target: EffectTarget::Self_, over_heal: false });
    zero.apply(&mut game, a).unwrap();
    assert_eq!(game.player(a).unwrap().health, 40);
    // A positive heal without over_heal brings it back to the maximum.
    capped.apply(&mut game, a).unwrap();
    assert_eq!(game.player(a).unwrap().health, 30);
}

#[test]
fn draw_effect_moves_cards_and_reports_exhaustion() {
    let (mut game, a, _) = two_player_game();
    let mut p = player_at(a, "Drawer", origin());
    p.deck.cards = vec![card(1, 1, Rarity::Common), card(3, 1, Rarity::Rare)];
    let front = p.deck.cards[0].id;
    game.insert_player(p);
    let draw_one = Effect::Draw(DrawEffect { cards: 1, target: EffectTarget::Self_, filter: None });
    draw_one.apply(&mut game, a).unwrap();
    assert_eq!(game.player(a).unwrap().hand.len(), 1);
    assert_eq!(game.player(a).unwrap().hand[0].id, front);
    assert_eq!(game.player(a).unwrap().deck.cards.len(), 1);
    let no_match = Effect::Draw(DrawEffect {
        cards: 1,
        target: EffectTarget::Self_,
        filter: Some(DrawFilter::Rarity(Rarity::Legendary)),
    });
    assert_eq!(no_match.apply(&mut game, a), Err(GameError::NoValidCard));
    let draw_three = Effect::Draw(DrawEffect { cards: 3, target: EffectTarget::Self_, filter: None });
    assert_eq!(draw_three.apply(&mut game, a), Err(GameError::EmptyDeck));
    // The draw before the failing one still happened.
    assert_eq!(game.player(a).unwrap().hand.len(), 2);
    assert!(game.player(a).unwrap().deck.cards.is_empty());
}

#[test]
fn boost_adds_to_the_chosen_stats() {
    let (mut game, a, _) = two_player_game();
    let both = Effect::Boost(BoostEffect {
        value: plain(4),
        target: EffectTarget::Self_,
        stat: BoostType::Both,
        duration: Duration::Temporary(2),
    });
    both.apply(&mut game, a).unwrap();
    let p = game.player(a).unwrap();
    assert_eq!(p.power_boosts, vec![(4, Duration::Temporary(2))]);
    assert_eq!(p.health_boosts, vec![(4, Duration::Temporary(2))]);
    assert_eq!(p.max_health(), 34);
    assert_eq!(p.health, 30);
}

#[test]
fn buff_effect_drops_negative_parts() {
    let (mut game, a, b) = two_player_game();
    let buff = Effect::BuffStats(BuffEffect {
        power: 3,
        health: -2,
        target: EffectTarget::AllPlayers(vec![a, b]),
        duration: Duration::Permanent,
    });
    buff.apply(&mut game, a).unwrap();
    assert_eq!(game.player(a).unwrap().power_boosts, vec![(3, Duration::Permanent)]);
    assert_eq!(game.player(b).unwrap().power_boosts, vec![(3, Duration::Permanent)]);
    assert!(game.player(b).unwrap().health_boosts.is_empty());
}

#[test]
fn failing_target_stops_the_effect() {
    let (mut game, a, b) = two_player_game();
    let effect = Effect::Damage(DamageEffect {
        value: plain(2),
        target: EffectTarget::AllPlayers(vec![a, 99, b]),
        penetrating: false,
    });
    assert_eq!(effect.apply(&mut game, a), Err(GameError::PlayerNotFound));
    assert_eq!(game.player(a).unwrap().health, 28);
    assert_eq!(game.player(b).unwrap().health, 30);
}

#[test]
fn scaling_adds_truncated_hundredths() {
    let (mut game, a, _) = two_player_game();
    let mut p = player_at(a, "Scaler", origin());
    p.hand = vec![card(1, 1, Rarity::Common), card(1, 1, Rarity::Common), card(1, 1, Rarity::Common)];
    p.cards_played_this_turn = 2;
    p.mana_spent_this_turn = 5;
    game.insert_player(p);
    let v = |s| EffectValue { base: 1, scaling: Some(s) };
    // 0.5 x 7 levels = 3.5, truncated to 3.
    assert_eq!(calculate_value(&v(ScalingFactor::MountainLevel(50)), &game, a), 4);
    // 1.5 x 3 cards = 4.5, truncated to 4.
    assert_eq!(calculate_value(&v(ScalingFactor::CardsInHand(150)), &game, a), 5);
    assert_eq!(calculate_value(&v(ScalingFactor::CardsPlayed(200)), &game, a), 5);
    assert_eq!(calculate_value(&v(ScalingFactor::ManaSpent(-100)), &game, a), 1);
    // A missing target scales by nothing.
    assert_eq!(calculate_value(&v(ScalingFactor::CardsInHand(150)), &game, 12345), 1);
    let big = EffectValue { base: u32::MAX - 1, scaling: Some(ScalingFactor::MountainLevel(100)) };
    assert_eq!(calculate_value(&big, &game, a), u32::MAX);
}

#[test]
fn damage_uses_the_scaled_value() {
    let (mut game, a, b) = two_player_game();
    let effect = Effect::Damage(DamageEffect {
        value: EffectValue { base: 2, scaling: Some(ScalingFactor::MountainLevel(100)) },
        target: EffectTarget::Specific(b),
        penetrating: false,
    });
    effect.apply(&mut game, a).unwrap();
    assert_eq!(game.player(b).unwrap().health, 21);
}

#[test]
fn random_targets_need_enough_players() {
    let (game, a, b) = two_player_game();
    assert_eq!(resolve_targets(&EffectTarget::Random(3), &game, a), Err(GameError::InvalidTarget));
    let all = resolve_targets(&EffectTarget::Random(2), &game, a).unwrap();
    let got: HashSet<u128> = all.into_iter().collect();
    let want: HashSet<u128> = vec![a, b].into_iter().collect();
    assert_eq!(got, want);
    let one = resolve_targets(&EffectTarget::Random(1), &game, a).unwrap();
    assert_eq!(one.len(), 1);
    assert!(one[0] == a || one[0] == b);
}

#[test]
fn fixed_targets_resolve_as_given() {
    let (game, a, b) = two_player_game();
    assert_eq!(resolve_targets(&EffectTarget::Self_, &game, a), Ok(vec![a]));
    assert_eq!(resolve_targets(&EffectTarget::Specific(42), &game, a), Ok(vec![42]));
    assert_eq!(resolve_targets(&EffectTarget::AllPlayers(vec![b, a, b]), &game, a), Ok(vec![b, a, b]));
    let set: HashSet<u128> = vec![a, b, 5].into_iter().collect();
    let got = resolve_targets(&EffectTarget::Multiple(set.clone()), &game, a).unwrap();
    assert_eq!(got.len(), 3);
    assert_eq!(got.into_iter().collect::<HashSet<u128>>(), set);
}

fn board_game() -> (GameState, u128, u128, u128, u128) {
    let a = new_id();
    let b = new_id();
    let c = new_id();
    let d = new_id();
    let mut game = GameState::new(
        player_at(a, "Center", Position { x: 1, y: 0, z: 1, level: 2 }),
        player_at(b, "Near", Position { x: 2, y: 0, z: 0, level: 2 }),
    );
    game.mountain = Mountain::new(3);
    game.insert_player(player_at(c, "Far", Position { x: 0, y: 2, z: 0, level: 2 }));
    game.insert_player(player_at(d, "Low", Position { x: 0, y: 0, z: 0, level: 0 }));
    (game, a, b, c, d)
}

#[test]
fn adjacent_targets_are_the_players_next_to_the_source() {
    let (game, a, b, _, _) = board_game();
    assert_eq!(resolve_targets(&EffectTarget::Adjacent, &game, a), Ok(vec![b]));
    assert_eq!(resolve_targets(&EffectTarget::Adjacent, &game, 77), Err(GameError::PlayerNotFound));
}

#[test]
fn area_targets_grow_with_the_radius() {
    let (game, a, b, c, d) = board_game();
    let area = |radius| resolve_targets(&EffectTarget::Area { center: a, radius }, &game, b).unwrap();
    assert_eq!(area(0), vec![a]);
    assert_eq!(area(1), vec![a, b, d]);
    assert_eq!(area(2), vec![a, b, c, d]);
    assert!(area(0).len() <= area(1).len() && area(1).len() <= area(2).len());
    assert_eq!(
        resolve_targets(&EffectTarget::Area { center: 5, radius: 1 }, &game, a),
        Err(GameError::PlayerNotFound)
    );
}

#[test]
fn conditional_targets_filter_then_truncate() {
    let (mut game, a, b, c, d) = board_game();
    let mut strong = player_at(b, "Strong", Position { x: 2, y: 0, z: 0, level: 2 });
    strong.hand = vec![card(1, 9, Rarity::Legendary)];
    game.insert_player(strong);
    let mut marked = player_at(c, "Marked", Position { x: 0, y: 2, z: 0, level: 2 });
    marked.active_effects = vec![(EffectType::Buff, Duration::Permanent)];
    marked.power_boosts = vec![(2, Duration::Permanent)];
    game.insert_player(marked);
    let cond = |condition, max_targets| {
        resolve_targets(&EffectTarget::Conditional { condition, max_targets }, &game, a).unwrap()
    };
    assert_eq!(cond(TargetCondition::PowerGreaterThan(1), None), vec![b, c]);
    assert_eq!(cond(TargetCondition::PowerGreaterThan(1), Some(1)), vec![b]);
    assert_eq!(cond(TargetCondition::PowerLessThan(1), None), vec![a, d]);
    assert_eq!(cond(TargetCondition::HasEffect(EffectType::Buff), None), vec![c]);
    assert_eq!(cond(TargetCondition::IsRarity(Rarity::Rare), Some(5)), vec![b]);
}

#[test]
fn move_player_checks_the_board() {
    let (mut game, a, _, _, _) = board_game();
    let step = Position { x: 1, y: 1, z: 0, level: 2 };
    assert_eq!(game.move_player(a, step), Ok(()));
    assert_eq!(game.player(a).unwrap().position, step);
    let jump = Position { x: 0, y: 0, z: 2, level: 2 };
    assert_eq!(game.move_player(a, jump), Err(GameError::InvalidMove));
    assert_eq!(game.player(a).unwrap().position, step);
    assert_eq!(game.move_player(3, jump), Err(GameError::PlayerNotFound));
}

#[test]
fn inserting_a_known_identity_replaces_the_player() {
    let (mut game, a, _) = two_player_game();
    let mut again = player_at(a, "Again", origin());
    again.health = 1;
    let old = game.insert_player(again).unwrap();
    assert_eq!(old.name, "Player 1");
    assert_eq!(game.players.len(), 2);
    assert_eq!(game.player(a).unwrap().health, 1);
}

#[test]
fn empty_collection_belongs_to_its_owner() {
    let c = mountain_cards::Collection::new(9);
    assert_eq!(c.owner_id, 9);
    assert!(c.cards.is_empty());
    assert!(c.decks.is_empty());
}

#[test]
fn server_configuration_is_not_valid() {
    assert!(!mountain_cards::server::GameServer::new().is_valid());
}
