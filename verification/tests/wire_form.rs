use term_nim::game::{GameState, PlayerType};
use term_nim::wire::{decode_game_state, encode_for_peer, encode_game_state};

fn state(piles: Vec<i8>, selected: usize, amount: Option<i8>, current: PlayerType, role: PlayerType) -> GameState {
    GameState {
        piles,
        selected_pile: selected,
        amount_selected: amount,
        current_player: current,
        player_type: role,
    }
}

#[test]
fn encoding_is_the_expected_json_text() {
    let g = state(vec![3, 4, 5], 0, None, PlayerType::Host, PlayerType::Host);
    let out = encode_game_state(&g);
    assert_eq!(
        String::from_utf8(out).unwrap(),
        r#"{"piles":[3,4,5],"selected_pile":0,"amount_selected":null,"current_player":"Host","player_type":"Host"}"#
    );
}

#[test]
fn encoding_for_the_peer_flips_the_role_field() {
    let g = state(vec![12, 1], 1, Some(7), PlayerType::Guest, PlayerType::Host);
    let out = encode_for_peer(&g);
    assert_eq!(
        String::from_utf8(out).unwrap(),
        r#"{"piles":[12,1],"selected_pile":1,"amount_selected":7,"current_player":"Guest","player_type":"Guest"}"#
    );
}

#[test]
fn round_trip_preserves_piles_selection_and_turn() {
    let g = state(vec![3, 4, 5], 2, Some(4), PlayerType::Guest, PlayerType::Host);
    let wire = encode_for_peer(&g);
    let d = decode_game_state(&wire).unwrap();
    assert_eq!(d.piles, vec![3, 4, 5]);
    assert_eq!(d.selected_pile, 2);
    assert_eq!(d.amount_selected, Some(4));
    assert_eq!(d.current_player, PlayerType::Guest);
    // the role field is written from the recipient's perspective
    assert_eq!(d.player_type, PlayerType::Guest);
}

#[test]
fn round_trip_of_plain_encoding_is_the_identity() {
    let g = state(vec![1, 20, 0, 7, 13], 4, None, PlayerType::Host, PlayerType::Guest);
    let wire = encode_game_state(&g);
    let d = decode_game_state(&wire).unwrap();
    assert_eq!(d.piles, g.piles);
    assert_eq!(d.selected_pile, g.selected_pile);
    assert_eq!(d.amount_selected, g.amount_selected);
    assert_eq!(d.current_player, g.current_player);
    assert_eq!(d.player_type, g.player_type);
}

#[test]
fn round_trip_of_single_pile_state() {
    let g = state(vec![0], 0, Some(0), PlayerType::Guest, PlayerType::Guest);
    let wire = encode_game_state(&g);
    let d = decode_game_state(&wire).unwrap();
    assert_eq!(d.piles, vec![0]);
    assert_eq!(d.amount_selected, Some(0));
}

#[test]
fn garbage_is_rejected() {
    assert!(decode_game_state(&b"nonsense".to_vec()).is_none());
    assert!(decode_game_state(&Vec::new()).is_none());
}

#[test]
fn trailing_bytes_are_rejected() {
    let g = state(vec![3], 0, None, PlayerType::Host, PlayerType::Host);
    let mut wire = encode_game_state(&g);
    wire.push(b' ');
    assert!(decode_game_state(&wire).is_none());
}

#[test]
fn truncated_input_is_rejected() {
    let g = state(vec![3], 0, None, PlayerType::Host, PlayerType::Host);
    let mut wire = encode_game_state(&g);
    wire.pop();
    assert!(decode_game_state(&wire).is_none());
}

#[test]
fn non_canonical_numbers_are_rejected() {
    let text = r#"{"piles":[03],"selected_pile":0,"amount_selected":null,"current_player":"Host","player_type":"Host"}"#;
    assert!(decode_game_state(&text.as_bytes().to_vec()).is_none());
}

#[test]
fn out_of_range_selection_is_rejected() {
    let text = r#"{"piles":[3,4],"selected_pile":5,"amount_selected":null,"current_player":"Host","player_type":"Host"}"#;
    assert!(decode_game_state(&text.as_bytes().to_vec()).is_none());
}

#[test]
fn amount_above_selected_pile_is_rejected() {
    let text = r#"{"piles":[3,4],"selected_pile":0,"amount_selected":4,"current_player":"Host","player_type":"Host"}"#;
    assert!(decode_game_state(&text.as_bytes().to_vec()).is_none());
}

#[test]
fn unknown_player_name_is_rejected() {
    let text = r#"{"piles":[3],"selected_pile":0,"amount_selected":null,"current_player":"Both","player_type":"Host"}"#;
    assert!(decode_game_state(&text.as_bytes().to_vec()).is_none());
}

#[test]
fn decoding_a_handwritten_wire_form_works() {
    let text = r#"{"piles":[10,0,2],"selected_pile":1,"amount_selected":0,"current_player":"Guest","player_type":"Host"}"#;
    let d = decode_game_state(&text.as_bytes().to_vec()).unwrap();
    assert_eq!(d.piles, vec![10, 0, 2]);
    assert_eq!(d.selected_pile, 1);
    assert_eq!(d.amount_selected, Some(0));
    assert_eq!(d.current_player, PlayerType::Guest);
    assert_eq!(d.player_type, PlayerType::Host);
}

#[test]
fn pile_count_above_the_byte_range_is_rejected() {
    let text = r#"{"piles":[128],"selected_pile":0,"amount_selected":null,"current_player":"Host","player_type":"Host"}"#;
    assert!(decode_game_state(&text.as_bytes().to_vec()).is_none());
}

#[test]
fn leading_zero_in_selection_is_rejected() {
    let text = r#"{"piles":[3,4],"selected_pile":01,"amount_selected":null,"current_player":"Host","player_type":"Host"}"#;
    assert!(decode_game_state(&text.as_bytes().to_vec()).is_none());
}

#[test]
fn empty_pile_list_is_rejected() {
    let text = r#"{"piles":[],"selected_pile":0,"amount_selected":null,"current_player":"Host","player_type":"Host"}"#;
    assert!(decode_game_state(&text.as_bytes().to_vec()).is_none());
}
