use mountain_cards::effects::Duration;
use mountain_cards::models::{CardType, Mountain, Position};
use mountain_cards::{Card, Deck, Player, Rarity};

fn new_id() -> u128 {
    uuid::Uuid::new_v4().as_u128()
}

fn card(cost: u32, power: u32, rarity: Rarity, card_type: CardType) -> Card {
    Card {
        id: new_id(),
        name: "Test Card".to_string(),
        cost,
        power,
        rarity,
        effects: vec![],
        card_type,
    }
}

#[test]
fn test_draw_card() {
    let card = Card {
        id: new_id(),
        name: "Test Card".to_string(),
        cost: 1,
        power: 1,
        rarity: Rarity::Common,
        effects: vec![],
        card_type: CardType::Climber,
    };

    let deck = Deck {
        cards: vec![card.clone()],
        owner_id: new_id(),
    };

    let mut player = Player::new("Test Player".to_string(), deck);

    assert_eq!(player.hand.len(), 0);
    assert_eq!(player.deck.cards.len(), 1);

    player.draw_card().unwrap();

    assert_eq!(player.hand.len(), 1);
    assert_eq!(player.deck.cards.len(), 0);
}

#[test]
fn test_draw_card_empty_deck() {
    let deck = Deck {
        cards: vec![],
        owner_id: new_id(),
    };

    let mut player = Player::new("Test Player".to_string(), deck);

    assert_eq!(player.hand.len(), 0);
    assert_eq!(player.deck.cards.len(), 0);

    let result = player.draw_card();

    assert!(result.is_err());
    assert_eq!(player.hand.len(), 0);
    assert_eq!(player.deck.cards.len(), 0);
}

#[test]
fn test_player_new() {
    let deck = Deck {
        cards: vec![],
        owner_id: new_id(),
    };

    let player = Player::new("Test Player".to_string(), deck);

    assert_eq!(player.health, 30);
    assert_eq!(player.hand.len(), 0);
    assert_eq!(player.mana, 0);
}

#[test]
fn test_player_new_with_cards() {
    let card = Card {
        id: new_id(),
        name: "Test Card".to_string(),
        cost: 1,
        power: 1,
        rarity: Rarity::Common,
        effects: vec![],
        card_type: CardType::Climber,
    };

    let deck = Deck {
        cards: vec![card.clone()],
        owner_id: new_id(),
    };

    let player = Player::new("Test Player".to_string(), deck);

    assert_eq!(player.health, 30);
    assert_eq!(player.hand.len(), 0);
    assert_eq!(player.mana, 0);
}

#[test]
fn test_mountain_movement() {
    let mountain = Mountain::new(3);

    let start = Position { x: 0, y: 0, z: 0, level: 0 };
    let valid_move = Position { x: 1, y: 0, z: 0, level: 0 };
    let invalid_move = Position { x: 2, y: 2, z: 2, level: 0 };

    assert!(mountain.is_valid_move(start, valid_move));
    assert!(!mountain.is_valid_move(start, invalid_move));
}

#[test]
fn test_range_calculation() {
    let mountain = Mountain::new(3);

    let pos1 = Position { x: 0, y: 0, z: 0, level: 0 };
    let pos2 = Position { x: 1, y: 1, z: 0, level: 0 };

    assert_eq!(mountain.calculate_distance(pos1, pos2), 1);
}

#[test]
fn test_tiles_in_range() {
    let mountain = Mountain::new(3);
    let center = Position { x: 1, y: 0, z: 1, level: 2 };

    let tiles_range_1 = mountain.get_tiles_in_range(center, 1);
    let tiles_range_2 = mountain.get_tiles_in_range(center, 2);

    assert!(tiles_range_1.len() < tiles_range_2.len());
}

#[test]
fn board_has_exactly_the_tiles_below_its_height() {
    let mountain = Mountain::new(4);
    assert_eq!(mountain.tiles.len(), 1 + 3 + 6 + 10);
    for x in 0..6u32 {
        for y in 0..6u32 {
            for z in 0..6u32 {
                assert_eq!(mountain.get_tile(x, y, z).is_some(), x + y + z < 4);
            }
        }
    }
    let tile = mountain.get_tile(1, 2, 0).unwrap();
    assert_eq!(tile.level, 3);
}

#[test]
fn tile_content_can_be_changed_in_place() {
    let mut mountain = Mountain::new(3);
    let id = new_id();
    mountain.get_tile_mut(1, 0, 1).unwrap().content = mountain_cards::models::TileContent::Player(id);
    assert_eq!(
        mountain.get_tile(1, 0, 1).unwrap().content,
        mountain_cards::models::TileContent::Player(id)
    );
    assert!(mountain.get_tile_mut(5, 5, 5).is_none());
}

#[test]
fn distance_is_symmetric_and_zero_only_on_equal_positions() {
    let mountain = Mountain::new(3);
    let a = Position { x: 2, y: 0, z: 0, level: 2 };
    let b = Position { x: 0, y: 1, z: 1, level: 2 };
    assert_eq!(mountain.calculate_distance(a, b), 2);
    assert_eq!(mountain.calculate_distance(b, a), 2);
    assert_eq!(mountain.calculate_distance(a, a), 0);
}

#[test]
fn neighbors_are_one_step_away_and_may_reach_one_level_past_the_top() {
    let mountain = Mountain::new(3);
    assert!(mountain.get_neighbors(0, 0, 0).is_empty());
    let center = Position { x: 1, y: 0, z: 1, level: 2 };
    let near = mountain.get_neighbors(1, 0, 1);
    assert_eq!(
        near,
        vec![
            Position { x: 2, y: 0, z: 0, level: 2 },
            Position { x: 0, y: 0, z: 2, level: 2 },
            Position { x: 0, y: 1, z: 1, level: 2 },
            Position { x: 1, y: 1, z: 0, level: 2 },
        ]
    );
    for p in &near {
        assert_eq!(mountain.calculate_distance(center, *p), 1);
    }
    // A position at level 3 on a board of three levels still has neighbors.
    let top = mountain.get_neighbors(3, 0, 0);
    assert_eq!(top.len(), 2);
    assert!(top.iter().all(|p| p.level == 3));
}

#[test]
fn valid_move_needs_both_tiles_and_one_step() {
    let mountain = Mountain::new(3);
    let a = Position { x: 1, y: 0, z: 1, level: 2 };
    let b = Position { x: 2, y: 0, z: 0, level: 2 };
    let far = Position { x: 0, y: 2, z: 0, level: 2 };
    let off = Position { x: 3, y: 0, z: 0, level: 3 };
    assert!(mountain.is_valid_move(a, b));
    assert!(!mountain.is_valid_move(a, far));
    assert!(!mountain.is_valid_move(b, off));
    assert!(!mountain.is_valid_move(a, a));
}

#[test]
fn level_lists_its_tiles_in_board_order() {
    let mountain = Mountain::new(3);
    let level = mountain.get_level(1);
    let coords: Vec<(u32, u32, u32)> = level.iter().map(|t| (t.x, t.y, t.z)).collect();
    assert_eq!(coords, vec![(0, 0, 1), (0, 1, 0), (1, 0, 0)]);
    assert!(mountain.get_level(3).is_empty());
}

#[test]
fn filtered_draw_takes_the_first_match() {
    let cards = vec![
        card(5, 1, Rarity::Common, CardType::Spell),
        card(2, 1, Rarity::Rare, CardType::Weapon),
        card(1, 1, Rarity::Rare, CardType::Gear),
    ];
    let second = cards[1].id;
    let deck = Deck { cards, owner_id: new_id() };
    let mut player = Player::new("Test Player".to_string(), deck);
    player
        .draw_filtered(&mountain_cards::effects::DrawFilter::Rarity(Rarity::Rare))
        .unwrap();
    assert_eq!(player.hand.len(), 1);
    assert_eq!(player.hand[0].id, second);
    assert_eq!(player.deck.cards.len(), 2);
    let none = player.draw_filtered(&mountain_cards::effects::DrawFilter::Cost(
        mountain_cards::effects::CostFilter::GreaterThan(9),
    ));
    assert_eq!(none, Err(mountain_cards::GameError::NoValidCard));
    assert_eq!(player.deck.cards.len(), 2);
    assert_eq!(
        player.draw_card(),
        Ok(())
    );
    assert_eq!(player.hand[1].cost, 5);
}

#[test]
fn empty_deck_draw_fails_with_empty_deck() {
    let mut player = Player::new("Test Player".to_string(), Deck { cards: vec![], owner_id: new_id() });
    assert_eq!(player.draw_card(), Err(mountain_cards::GameError::EmptyDeck));
}

#[test]
fn power_and_max_health_add_up_boosts() {
    let cards = vec![card(1, 4, Rarity::Common, CardType::Climber), card(1, 6, Rarity::Common, CardType::Climber)];
    let mut player = Player::new("Test Player".to_string(), Deck { cards, owner_id: new_id() });
    player.draw_card().unwrap();
    player.draw_card().unwrap();
    player.add_power_boost(5, Duration::Permanent);
    assert_eq!(player.get_power(), 15);
    player.add_health_boost(10, Duration::Temporary(2));
    assert_eq!(player.max_health(), 40);
    assert_eq!(player.health, 30);
}

#[test]
fn buff_applies_only_positive_parts() {
    let mut player = Player::new("Test Player".to_string(), Deck { cards: vec![], owner_id: new_id() });
    player.add_buff(-3, 4, Duration::Permanent);
    assert!(player.power_boosts.is_empty());
    assert_eq!(player.health_boosts, vec![(4, Duration::Permanent)]);
    player.add_buff(2, -1, Duration::Temporary(1));
    assert_eq!(player.power_boosts, vec![(2, Duration::Temporary(1))]);
    assert_eq!(player.health_boosts.len(), 1);
}

#[test]
fn one_turn_boost_survives_one_advance_only() {
    let mut player = Player::new("Test Player".to_string(), Deck { cards: vec![], owner_id: new_id() });
    player.add_power_boost(3, Duration::Temporary(1));
    player.add_power_boost(7, Duration::Permanent);
    player.cards_played_this_turn = 2;
    player.mana_spent_this_turn = 4;
    player.update_turn();
    assert_eq!(player.power_boosts, vec![(3, Duration::Temporary(0)), (7, Duration::Permanent)]);
    assert_eq!(player.cards_played_this_turn, 0);
    assert_eq!(player.mana_spent_this_turn, 0);
    player.update_turn();
    assert_eq!(player.power_boosts, vec![(7, Duration::Permanent)]);
}

#[test]
fn level_bound_durations_are_kept() {
    let mut player = Player::new("Test Player".to_string(), Deck { cards: vec![], owner_id: new_id() });
    player.active_effects.push((mountain_cards::effects::EffectType::Heal, Duration::UntilMountainLevel(4)));
    player.update_turn();
    player.update_turn();
    assert!(player.has_effect(&mountain_cards::effects::EffectType::Heal));
    assert!(!player.has_effect(&mountain_cards::effects::EffectType::Damage));
}

#[test]
fn new_players_get_distinct_identities() {
    let a = Player::new("A".to_string(), Deck { cards: vec![], owner_id: 1 });
    let b = Player::new("B".to_string(), Deck { cards: vec![], owner_id: 1 });
    assert_ne!(a.id, b.id);
}

#[test]
fn rarity_order_is_common_to_legendary() {
    assert!(Rarity::Legendary.at_least(&Rarity::Rare));
    assert!(Rarity::Rare.at_least(&Rarity::Rare));
    assert!(!Rarity::Common.at_least(&Rarity::Uncommon));
}
