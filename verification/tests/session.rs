use term_nim::comms::{Server, ServerMessage};
use term_nim::game::{GameState, Key, PileAmount, PileSize, PlayerType};
use term_nim::ui::form::StringForm;
use term_nim::ui::menu::{MenuState, MenuStateTransition};
use term_nim::ui::popup::Popup;
use term_nim::ui::stateful_list::StatefulList;
use term_nim::ui::utils::{get_center_of_rect_for_list, get_center_of_rect_for_rect, get_center_of_rect_for_text, Rect};

fn host_state(piles: Vec<i8>) -> GameState {
    GameState {
        piles,
        selected_pile: 0,
        amount_selected: None,
        current_player: PlayerType::Host,
        player_type: PlayerType::Host,
    }
}

#[test]
fn handshake_flips_role_and_copies_the_rest() {
    let mut server = Server::new("10.0.0.1:4088".to_string(), host_state(vec![3, 4, 5]));
    let snapshot = server.handshake("10.0.0.2:4088".to_string());
    assert_eq!(snapshot.piles, vec![3, 4, 5]);
    assert_eq!(snapshot.selected_pile, 0);
    assert_eq!(snapshot.amount_selected, None);
    assert_eq!(snapshot.current_player, PlayerType::Host);
    assert_eq!(snapshot.player_type, PlayerType::Guest);
    // the host's own copy is untouched
    assert_eq!(server.current_game_state.player_type, PlayerType::Host);
    match server.pop_message() {
        Some(ServerMessage::GuestConnected(addr)) => assert_eq!(addr, "10.0.0.2:4088"),
        _ => panic!("expected a GuestConnected event"),
    }
    assert!(server.pop_message().is_none());
}

#[test]
fn receive_state_overwrites_wholesale() {
    let mut server = Server::new("h:1".to_string(), host_state(vec![3, 4, 5]));
    let mut incoming = host_state(vec![0, 4, 5]);
    incoming.current_player = PlayerType::Guest;
    server.receive_state(incoming);
    assert_eq!(server.current_game_state.piles, vec![0, 4, 5]);
    assert_eq!(server.current_game_state.current_player, PlayerType::Guest);
    match server.pop_message() {
        Some(ServerMessage::UpdatedGameState) => {}
        _ => panic!("expected an UpdatedGameState event"),
    }
}

#[test]
fn mailbox_is_first_in_first_out() {
    let mut server = Server::new("h:1".to_string(), host_state(vec![1]));
    server.handshake("first:1".to_string());
    server.receive_state(host_state(vec![2]));
    assert!(matches!(server.pop_message(), Some(ServerMessage::GuestConnected(_))));
    assert!(matches!(server.pop_message(), Some(ServerMessage::UpdatedGameState)));
    assert!(server.pop_message().is_none());
}

#[test]
fn stateful_list_wraps_both_ways() {
    let mut list = StatefulList::with_items(vec![10, 20, 30]);
    assert_eq!(list.get_selected(), Some(&10));
    list.next();
    assert_eq!(list.get_selected(), Some(&20));
    list.next();
    list.next();
    assert_eq!(list.get_selected(), Some(&10));
    list.previous();
    assert_eq!(list.get_selected(), Some(&30));
    list.unselect();
    assert_eq!(list.get_selected(), None::<&i32>);
    list.next();
    assert_eq!(list.get_selected(), Some(&10));
}

#[test]
fn string_form_edits_its_field() {
    let mut form = StringForm::new("label".to_string(), 20, None);
    assert_eq!(form.consume(), "");
    form.handle_key(Key::Char('h'));
    form.handle_key(Key::Char('i'));
    assert_eq!(form.consume(), "hi");
    form.handle_key(Key::Backspace);
    assert_eq!(form.consume(), "h");
    form.handle_key(Key::Backspace);
    form.handle_key(Key::Backspace);
    assert_eq!(form.consume(), "");
    form.handle_key(Key::Enter);
    assert_eq!(form.consume(), "");
    let form = StringForm::new("label".to_string(), 4, Some("pre".to_string()));
    assert_eq!(form.consume(), "pre");
}

#[test]
fn popup_keeps_title_and_body() {
    let p = Popup::new("Game Over".to_string(), "You Won! :)".to_string());
    assert_eq!(p.title, "Game Over");
    assert_eq!(p.body, "You Won! :)");
}

#[test]
fn centered_text_rect() {
    let screen = Rect { x: 0, y: 0, width: 80, height: 24 };
    let r = get_center_of_rect_for_text(&screen, "hello");
    assert_eq!(r, Rect { x: 37, y: 12, width: 5, height: 1 });
}

#[test]
fn centered_inner_rect() {
    let screen = Rect { x: 0, y: 0, width: 80, height: 24 };
    let r = get_center_of_rect_for_rect(&screen, 20, 10);
    assert_eq!(r, Rect { x: 30, y: 7, width: 20, height: 10 });
}

#[test]
fn centered_list_rect() {
    let screen = Rect { x: 0, y: 0, width: 80, height: 24 };
    let lines = vec!["ab".to_string(), "abcd".to_string()];
    let r = get_center_of_rect_for_list(&screen, &lines);
    assert_eq!(r, Rect { x: 33, y: 11, width: 9, height: 2 });
}

#[test]
fn main_menu_navigation_and_create() {
    let mut menu = MenuState::MainMenu { selected: None };
    // Enter with nothing chosen only highlights the first entry
    assert!(matches!(
        menu.handle_key(Key::Enter, "10.0.0.7".to_string()),
        MenuStateTransition::Continue
    ));
    assert!(matches!(menu, MenuState::MainMenu { selected: Some(false) }));
    menu.handle_key(Key::Enter, "10.0.0.7".to_string());
    match &menu {
        MenuState::GameSettings { selected, amounts, sizes } => {
            assert!(selected.is_none());
            assert_eq!(amounts.items.len(), 3);
            assert_eq!(sizes.items.len(), 3);
            assert!(matches!(amounts.get_selected(), Some(&PileAmount::Two)));
            assert!(matches!(sizes.get_selected(), Some(&PileSize::Small)));
        }
        _ => panic!("expected the settings form"),
    }
}

#[test]
fn main_menu_join_prefills_local_address() {
    let mut menu = MenuState::MainMenu { selected: None };
    menu.handle_key(Key::Right, "10.0.0.7".to_string());
    menu.handle_key(Key::Enter, "10.0.0.7".to_string());
    match &menu {
        MenuState::ConnectToPeer { form, client_connected } => {
            assert!(!*client_connected);
            assert_eq!(form.label, "Connect to peer");
            assert_eq!(form.state, "10.0.0.7:");
        }
        _ => panic!("expected the connect form"),
    }
}

#[test]
fn settings_enter_prepares_a_host_game() {
    let mut menu = MenuState::MainMenu { selected: Some(false) };
    menu.handle_key(Key::Enter, "ip".to_string());
    // focus the amount list and pick the second entry (five piles)
    menu.handle_key(Key::Left, "ip".to_string());
    menu.handle_key(Key::Down, "ip".to_string());
    menu.handle_key(Key::Enter, "10.0.0.7".to_string());
    match &menu {
        MenuState::WaitingForConnection { form, game } => {
            assert_eq!(form.label, "IP to expose");
            assert_eq!(form.state, "10.0.0.7:4088");
            assert_eq!(game.piles.len(), 5);
            for p in &game.piles {
                assert!(1 <= *p && *p <= 5);
            }
            assert_eq!(game.player_type, PlayerType::Host);
            assert_eq!(game.current_player, PlayerType::Host);
        }
        _ => panic!("expected the waiting form"),
    }
}

#[test]
fn settings_lists_navigate_with_focus() {
    let mut menu = MenuState::MainMenu { selected: Some(false) };
    menu.handle_key(Key::Enter, "ip".to_string());
    // focus the size list and move down twice
    menu.handle_key(Key::Right, "ip".to_string());
    menu.handle_key(Key::Down, "ip".to_string());
    menu.handle_key(Key::Down, "ip".to_string());
    match &menu {
        MenuState::GameSettings { sizes, amounts, .. } => {
            assert!(matches!(sizes.get_selected(), Some(&PileSize::Large)));
            assert!(matches!(amounts.get_selected(), Some(&PileAmount::Two)));
        }
        _ => panic!("expected the settings form"),
    }
}

#[test]
fn waiting_form_enter_opens_the_game() {
    let game = host_state(vec![2, 2]);
    let form = StringForm::new("IP to expose".to_string(), 12, Some("10.0.0.7:4088".to_string()));
    let mut menu = MenuState::WaitingForConnection { form, game };
    match menu.handle_key(Key::Enter, "ip".to_string()) {
        MenuStateTransition::GameOpen { address, game } => {
            assert_eq!(address, "10.0.0.7:4088");
            assert_eq!(game.piles, vec![2, 2]);
        }
        _ => panic!("expected the game to open"),
    }
}

#[test]
fn connect_form_probe_and_handshake_flow() {
    let form = StringForm::new("Connect to peer".to_string(), 20, Some("10.0.0.9:".to_string()));
    let mut menu = MenuState::ConnectToPeer { form, client_connected: false };
    // typing edits the address
    menu.handle_key(Key::Char('1'), "ip".to_string());
    match menu.handle_key(Key::Enter, "ip".to_string()) {
        MenuStateTransition::Probe { address } => assert_eq!(address, "10.0.0.9:1"),
        _ => panic!("expected a probe"),
    }
    // a failed probe shows the error inline and stays put
    menu.handle_probe_result(false, "Failed to connect".to_string(), "10.0.0.7".to_string());
    match &menu {
        MenuState::ConnectToPeer { form, client_connected } => {
            assert!(!*client_connected);
            assert_eq!(form.state, "Failed to connect");
        }
        _ => panic!("expected to stay in the connect form"),
    }
    // a successful probe stores the link and asks which address to expose
    menu.handle_probe_result(true, String::new(), "10.0.0.7".to_string());
    match &menu {
        MenuState::ConnectToPeer { form, client_connected } => {
            assert!(*client_connected);
            assert_eq!(form.label, "IP to expose");
            assert_eq!(form.state, "10.0.0.7:4088");
        }
        _ => panic!("expected to stay in the connect form"),
    }
    match menu.handle_key(Key::Enter, "ip".to_string()) {
        MenuStateTransition::Handshake { address } => assert_eq!(address, "10.0.0.7:4088"),
        _ => panic!("expected the handshake"),
    }
}
