use term_nim::game::{GameState, Key, PileAmount, PileSize, PlayerType};

fn state(piles: Vec<i8>, selected: usize, amount: Option<i8>, current: PlayerType, role: PlayerType) -> GameState {
    GameState {
        piles,
        selected_pile: selected,
        amount_selected: amount,
        current_player: current,
        player_type: role,
    }
}

#[test]
fn new_game_has_chosen_pile_count_and_bounds() {
    let amounts = [
        (PileAmount::Two, 2),
        (PileAmount::Five, 5),
        (PileAmount::Ten, 10),
    ];
    let sizes = [
        (PileSize::Small, 5),
        (PileSize::Medium, 10),
        (PileSize::Large, 20),
    ];
    for (pa, n) in &amounts {
        for (ps, limit) in &sizes {
            let g = GameState::new(pa, ps, PlayerType::Host);
            assert_eq!(g.piles.len(), *n);
            for p in &g.piles {
                assert!(1 <= *p && *p <= *limit);
            }
            assert_eq!(g.selected_pile, 0);
            assert_eq!(g.amount_selected, None);
            assert_eq!(g.current_player, PlayerType::Host);
            assert_eq!(g.player_type, PlayerType::Host);
        }
    }
}

#[test]
fn new_game_keeps_given_role() {
    let g = GameState::new(&PileAmount::Two, &PileSize::Small, PlayerType::Guest);
    assert_eq!(g.player_type, PlayerType::Guest);
    assert_eq!(g.current_player, PlayerType::Host);
}

#[test]
fn left_then_right_returns_to_start() {
    for start in 0..3usize {
        let mut g = state(vec![1, 2, 3], start, None, PlayerType::Host, PlayerType::Host);
        g.handle_key(Key::Left);
        g.handle_key(Key::Right);
        assert_eq!(g.selected_pile, start);
        let mut g = state(vec![1, 2, 3], start, None, PlayerType::Host, PlayerType::Host);
        g.handle_key(Key::Right);
        g.handle_key(Key::Left);
        assert_eq!(g.selected_pile, start);
    }
}

#[test]
fn selection_wraps_around() {
    let mut g = state(vec![1, 2, 3], 0, None, PlayerType::Host, PlayerType::Host);
    g.previous();
    assert_eq!(g.selected_pile, 2);
    g.next();
    assert_eq!(g.selected_pile, 0);
    g.next();
    assert_eq!(g.selected_pile, 1);
}

#[test]
fn moving_selection_resets_staged_amount() {
    let mut g = state(vec![3, 4], 0, Some(2), PlayerType::Host, PlayerType::Host);
    let changed = g.handle_key(Key::Left);
    assert!(changed);
    assert_eq!(g.amount_selected, None);
    assert_eq!(g.selected_pile, 1);
}

#[test]
fn confirm_with_unset_amount_changes_nothing() {
    let mut g = state(vec![3, 4, 5], 1, None, PlayerType::Host, PlayerType::Host);
    let changed = g.handle_key(Key::Enter);
    assert!(!changed);
    assert_eq!(g.piles, vec![3, 4, 5]);
    assert_eq!(g.selected_pile, 1);
    assert_eq!(g.amount_selected, None);
    assert_eq!(g.current_player, PlayerType::Host);
}

#[test]
fn confirm_with_zero_amount_changes_nothing() {
    let mut g = state(vec![3, 4, 5], 1, Some(0), PlayerType::Host, PlayerType::Host);
    let changed = g.handle_key(Key::Enter);
    assert!(!changed);
    assert_eq!(g.piles, vec![3, 4, 5]);
    assert_eq!(g.amount_selected, Some(0));
    assert_eq!(g.current_player, PlayerType::Host);
}

#[test]
fn confirm_subtracts_exactly_one_pile_and_flips_turn() {
    let mut g = state(vec![3, 4, 5], 1, Some(2), PlayerType::Host, PlayerType::Host);
    let changed = g.handle_key(Key::Enter);
    assert!(changed);
    assert_eq!(g.piles, vec![3, 2, 5]);
    assert_eq!(g.amount_selected, None);
    assert_eq!(g.current_player, PlayerType::Guest);
    assert_eq!(g.player_type, PlayerType::Host);
}

#[test]
fn host_takes_whole_first_pile() {
    // piles [3,4,5], host to move: stage 3 on pile 0 and confirm
    let mut g = state(vec![3, 4, 5], 0, None, PlayerType::Host, PlayerType::Host);
    g.handle_key(Key::Down);
    g.handle_key(Key::Down);
    g.handle_key(Key::Down);
    assert_eq!(g.amount_selected, Some(3));
    g.handle_key(Key::Enter);
    assert_eq!(g.piles, vec![0, 4, 5]);
    assert_eq!(g.current_player, PlayerType::Guest);
}

#[test]
fn out_of_turn_input_is_ignored_entirely() {
    // a fully valid staged amount, but it is not this side's turn
    let mut g = state(vec![3, 4, 5], 0, Some(3), PlayerType::Host, PlayerType::Guest);
    for key in [Key::Enter, Key::Left, Key::Right, Key::Up, Key::Down] {
        let changed = g.handle_key(key);
        assert!(!changed);
        assert_eq!(g.piles, vec![3, 4, 5]);
        assert_eq!(g.selected_pile, 0);
        assert_eq!(g.amount_selected, Some(3));
        assert_eq!(g.current_player, PlayerType::Host);
    }
}

#[test]
fn down_clamps_at_pile_value() {
    let mut g = state(vec![2, 9], 0, Some(2), PlayerType::Host, PlayerType::Host);
    let changed = g.handle_key(Key::Down);
    assert!(!changed);
    assert_eq!(g.amount_selected, Some(2));
}

#[test]
fn down_on_empty_pile_clamps_to_zero() {
    let mut g = state(vec![0, 9], 0, None, PlayerType::Host, PlayerType::Host);
    g.handle_key(Key::Down);
    assert_eq!(g.amount_selected, Some(0));
}

#[test]
fn up_clamps_at_zero() {
    let mut g = state(vec![2, 9], 0, Some(0), PlayerType::Host, PlayerType::Host);
    let changed = g.handle_key(Key::Up);
    assert!(!changed);
    assert_eq!(g.amount_selected, Some(0));
    let mut g = state(vec![2, 9], 0, None, PlayerType::Host, PlayerType::Host);
    let changed = g.handle_key(Key::Up);
    assert!(changed);
    assert_eq!(g.amount_selected, Some(0));
}

#[test]
fn up_decreases_staged_amount() {
    let mut g = state(vec![5], 0, Some(4), PlayerType::Host, PlayerType::Host);
    g.handle_key(Key::Up);
    assert_eq!(g.amount_selected, Some(3));
}

#[test]
fn unknown_keys_change_nothing() {
    let mut g = state(vec![3], 0, Some(1), PlayerType::Host, PlayerType::Host);
    let changed = g.handle_key(Key::Char('x'));
    assert!(!changed);
    assert_eq!(g.amount_selected, Some(1));
}

#[test]
fn game_over_iff_all_piles_empty() {
    let g = state(vec![0, 0, 0], 0, None, PlayerType::Host, PlayerType::Host);
    assert!(g.is_game_over());
    let g = state(vec![0, 1, 0], 0, None, PlayerType::Host, PlayerType::Host);
    assert!(!g.is_game_over());
    let g = state(vec![5], 0, None, PlayerType::Host, PlayerType::Host);
    assert!(!g.is_game_over());
}

#[test]
fn pick_takes_staged_amount() {
    let mut g = state(vec![3, 4], 1, Some(4), PlayerType::Guest, PlayerType::Guest);
    g.pick();
    assert_eq!(g.piles, vec![3, 0]);
    assert_eq!(g.amount_selected, None);
    assert_eq!(g.current_player, PlayerType::Host);
}

#[test]
fn player_type_flip_swaps_sides() {
    let mut p = PlayerType::Host;
    p.flip();
    assert_eq!(p, PlayerType::Guest);
    p.flip();
    assert_eq!(p, PlayerType::Host);
}

#[test]
fn pile_amount_values() {
    assert_eq!(PileAmount::Two.amount(), 2);
    assert_eq!(PileAmount::Five.amount(), 5);
    assert_eq!(PileAmount::Ten.amount(), 10);
    assert_eq!(PileAmount::Two.label(), "Two");
    assert_eq!(PileAmount::Five.label(), "Five");
    assert_eq!(PileAmount::Ten.label(), "Ten");
}

#[test]
fn pile_size_values() {
    assert_eq!(PileSize::Small.quantity_limit(), 5);
    assert_eq!(PileSize::Medium.quantity_limit(), 10);
    assert_eq!(PileSize::Large.quantity_limit(), 20);
    assert_eq!(PileSize::Small.label(), "Small");
    assert_eq!(PileSize::Medium.label(), "Medium");
    assert_eq!(PileSize::Large.label(), "Large");
}

#[test]
fn default_state_is_empty_host() {
    let g = GameState::default();
    assert!(g.piles.is_empty());
    assert_eq!(g.selected_pile, 0);
    assert_eq!(g.amount_selected, None);
    assert_eq!(g.current_player, PlayerType::Host);
    assert_eq!(g.player_type, PlayerType::Host);
}

#[test]
fn clone_copies_every_field() {
    let g = state(vec![1, 2], 1, Some(1), PlayerType::Guest, PlayerType::Host);
    let c = g.clone();
    assert_eq!(c.piles, vec![1, 2]);
    assert_eq!(c.selected_pile, 1);
    assert_eq!(c.amount_selected, Some(1));
    assert_eq!(c.current_player, PlayerType::Guest);
    assert_eq!(c.player_type, PlayerType::Host);
}

#[test]
fn peer_perspective_flips_only_the_role() {
    let g = state(vec![3, 4], 1, Some(2), PlayerType::Guest, PlayerType::Host);
    let p = g.to_peer_perspective();
    assert_eq!(p.piles, vec![3, 4]);
    assert_eq!(p.selected_pile, 1);
    assert_eq!(p.amount_selected, Some(2));
    assert_eq!(p.current_player, PlayerType::Guest);
    assert_eq!(p.player_type, PlayerType::Guest);
}

#[test]
fn adopting_guest_role_changes_only_the_role() {
    let mut g = state(vec![3, 4], 0, None, PlayerType::Host, PlayerType::Host);
    g.adopt_guest_role();
    assert_eq!(g.player_type, PlayerType::Guest);
    assert_eq!(g.current_player, PlayerType::Host);
    assert_eq!(g.piles, vec![3, 4]);
}
