//! The session state machine outside active play: main menu, settings,
//! connecting to a peer, waiting for a peer.
//!
//! Network work is not done here: where a transition needs the link, it
//! hands back a `MenuStateTransition` naming the action, and the caller
//! reports the outcome through `handle_probe_result`. The local network
//! address is likewise handed in by the caller.
use crate::game::{GameState, Key, PileAmount, PileSize, PlayerType};
use crate::ui::form::{spec_form_step, StringForm};
use crate::ui::stateful_list::StatefulList;
use vstd::prelude::*;

verus! {

pub enum MenuState {
    MainMenu { selected: Option<bool> },
    GameSettings {
        selected: Option<bool>,
        amounts: StatefulList<PileAmount>,
        sizes: StatefulList<PileSize>,
    },
    ConnectToPeer { form: StringForm, client_connected: bool },
    WaitingForConnection { form: StringForm, game: GameState },
}

/// What the caller must do next: keep going, probe an address for
/// liveness, run the connection handshake, or open a hosted game bound
/// to an address.
pub enum MenuStateTransition {
    Continue,
    Probe { address: String },
    Handshake { address: String },
    GameOpen { address: String, game: GameState },
}

/// The length of a string, clipped to what a form width can hold.
fn clipped_len(s: &String) -> (r: u16)
    ensures
        r == if s@.len() > u16::MAX {
            u16::MAX as nat
        } else {
            s@.len()
        },
{
    let n = s.as_str().unicode_len();
    if n > u16::MAX as usize {
        u16::MAX
    } else {
        n as u16
    }
}

impl MenuState {
    /// The settings lists always hold their fixed choices with one of them
    /// highlighted, and a prepared game is always well-formed.
    pub open spec fn inv(self) -> bool {
        match self {
            MenuState::GameSettings { selected, amounts, sizes } => {
                &&& amounts.wf()
                &&& amounts.selected is Some
                &&& amounts.items@.len() == 3
                &&& sizes.wf()
                &&& sizes.selected is Some
                &&& sizes.items@.len() == 3
            },
            MenuState::WaitingForConnection { form, game } => game@.wf(),
            _ => true,
        }
    }

    /// One key press in the menus. `local_address` is this machine's
    /// network address, used to pre-fill address fields.
    pub fn handle_key(&mut self, key: Key, local_address: String) -> (r: MenuStateTransition)
        requires
            old(self).inv(),
        ensures
            final(self).inv(),
            *old(self) matches MenuState::MainMenu { selected } ==> match key {
                Key::Left => *final(self) == (MenuState::MainMenu { selected: Some(false) })
                    && r is Continue,
                Key::Right => *final(self) == (MenuState::MainMenu { selected: Some(true) })
                    && r is Continue,
                Key::Enter => {
                    &&& selected == Some(false) ==> {
                        &&& *final(self) matches MenuState::GameSettings {
                            selected: s2,
                            amounts,
                            sizes,
                        }
                        &&& s2 is None
                        &&& amounts.items@ =~= seq![
                            PileAmount::Two,
                            PileAmount::Five,
                            PileAmount::Ten,
                        ]
                        &&& amounts.selected == Some(0usize)
                        &&& sizes.items@ =~= seq![PileSize::Small, PileSize::Medium, PileSize::Large]
                        &&& sizes.selected == Some(0usize)
                        &&& r is Continue
                    }
                    &&& selected == Some(true) ==> {
                        &&& *final(self) matches MenuState::ConnectToPeer {
                            form,
                            client_connected,
                        }
                        &&& !client_connected
                        &&& form.label@ == "Connect to peer"@
                        &&& form.state@ == local_address@ + ":"@
                        &&& r is Continue
                    }
                    &&& selected is None ==> *final(self) == (MenuState::MainMenu {
                        selected: Some(false),
                    }) && r is Continue
                },
                _ => *final(self) == *old(self) && r is Continue,
            },
            *old(self) matches MenuState::GameSettings { selected, amounts, sizes } ==> match key {
                Key::Left => *final(self) == (MenuState::GameSettings {
                    selected: Some(false),
                    amounts,
                    sizes,
                }) && r is Continue,
                Key::Right => *final(self) == (MenuState::GameSettings {
                    selected: Some(true),
                    amounts,
                    sizes,
                }) && r is Continue,
                Key::Up => {
                    &&& *final(self) matches MenuState::GameSettings {
                        selected: s2,
                        amounts: a2,
                        sizes: z2,
                    }
                    &&& s2 == selected
                    &&& (selected == Some(true) ==> a2 == amounts && z2.items@ == sizes.items@
                        && z2.selected == Some(sizes.spec_previous_index() as usize))
                    &&& (selected == Some(false) ==> z2 == sizes && a2.items@ == amounts.items@
                        && a2.selected == Some(amounts.spec_previous_index() as usize))
                    &&& (selected is None ==> a2 == amounts && z2 == sizes)
                    &&& r is Continue
                },
                Key::Down => {
                    &&& *final(self) matches MenuState::GameSettings {
                        selected: s2,
                        amounts: a2,
                        sizes: z2,
                    }
                    &&& s2 == selected
                    &&& (selected == Some(true) ==> a2 == amounts && z2.items@ == sizes.items@
                        && z2.selected == Some(sizes.spec_next_index() as usize))
                    &&& (selected == Some(false) ==> z2 == sizes && a2.items@ == amounts.items@
                        && a2.selected == Some(amounts.spec_next_index() as usize))
                    &&& (selected is None ==> a2 == amounts && z2 == sizes)
                    &&& r is Continue
                },
                Key::Enter => {
                    &&& selected is Some ==> {
                        &&& *final(self) matches MenuState::WaitingForConnection { form, game }
                        &&& form.label@ == "IP to expose"@
                        &&& form.state@ == local_address@ + ":4088"@
                        &&& game@.wf()
                        &&& game@.piles.len() == amounts.items@[
                            amounts.selected->0 as int
                        ].spec_amount()
                        &&& (forall|i: int|
                            0 <= i < game@.piles.len() ==> 1 <= #[trigger] game@.piles[i]
                                <= sizes.items@[sizes.selected->0 as int].spec_limit())
                        &&& game@.selected == 0
                        &&& game@.amount is None
                        &&& game@.current == PlayerType::Host
                        &&& game@.role == PlayerType::Host
                        &&& r is Continue
                    }
                    &&& selected is None ==> *final(self) == (MenuState::GameSettings {
                        selected: Some(false),
                        amounts,
                        sizes,
                    }) && r is Continue
                },
                _ => *final(self) == *old(self) && r is Continue,
            },
            *old(self) matches MenuState::ConnectToPeer { form, client_connected } ==> match key {
                Key::Enter => {
                    &&& *final(self) == *old(self)
                    &&& client_connected ==> {
                        &&& r matches MenuStateTransition::Handshake { address }
                        &&& address@ == form.state@
                    }
                    &&& !client_connected ==> {
                        &&& r matches MenuStateTransition::Probe { address }
                        &&& address@ == form.state@
                    }
                },
                _ => {
                    &&& *final(self) matches MenuState::ConnectToPeer {
                        form: f2,
                        client_connected: c2,
                    }
                    &&& c2 == client_connected
                    &&& f2.label@ == form.label@
                    &&& spec_form_step(form.state@, f2.state@, key)
                    &&& r is Continue
                },
            },
            *old(self) matches MenuState::WaitingForConnection { form, game } ==> match key {
                Key::Enter => {
                    &&& *final(self) == *old(self)
                    &&& r matches MenuStateTransition::GameOpen { address, game: g2 }
                    &&& address@ == form.state@
                    &&& g2@ == game@
                },
                _ => {
                    &&& *final(self) matches MenuState::WaitingForConnection { form: f2, game: g2 }
                    &&& g2 == game
                    &&& f2.label@ == form.label@
                    &&& spec_form_step(form.state@, f2.state@, key)
                    &&& r is Continue
                },
            },
    {
        match self {
            MenuState::MainMenu { selected } => {
                match key {
                    Key::Left => {
                        *selected = Some(false);
                    },
                    Key::Right => {
                        *selected = Some(true);
                    },
                    Key::Enter => {
                        match selected {
                            Some(true) => {
                                let prefill = local_address.concat(":");
                                *self = MenuState::ConnectToPeer {
                                    form: StringForm::new(
                                        String::from_str("Connect to peer"),
                                        20,
                                        Some(prefill),
                                    ),
                                    client_connected: false,
                                };
                            },
                            Some(false) => {
                                let mut amount_items: Vec<PileAmount> = Vec::new();
                                amount_items.push(PileAmount::Two);
                                amount_items.push(PileAmount::Five);
                                amount_items.push(PileAmount::Ten);
                                let mut size_items: Vec<PileSize> = Vec::new();
                                size_items.push(PileSize::Small);
                                size_items.push(PileSize::Medium);
                                size_items.push(PileSize::Large);
                                *self = MenuState::GameSettings {
                                    selected: None,
                                    amounts: StatefulList::with_items(amount_items),
                                    sizes: StatefulList::with_items(size_items),
                                };
                            },
                            None => {
                                *selected = Some(false);
                            },
                        }
                    },
                    _ => {},
                }
                MenuStateTransition::Continue
            },
            MenuState::GameSettings { selected, amounts, sizes } => {
                match key {
                    Key::Left => {
                        *selected = Some(false);
                    },
                    Key::Right => {
                        *selected = Some(true);
                    },
                    Key::Up => {
                        match selected {
                            Some(true) => sizes.previous(),
                            Some(false) => amounts.previous(),
                            None => {},
                        }
                    },
                    Key::Down => {
                        match selected {
                            Some(true) => sizes.next(),
                            Some(false) => amounts.next(),
                            None => {},
                        }
                    },
                    Key::Enter => {
                        match selected {
                            Some(_) => {
                                let amount_choice: PileAmount = match amounts.get_selected() {
                                    Some(a) => *a,
                                    None => PileAmount::Two,
                                };
                                let size_choice: PileSize = match sizes.get_selected() {
                                    Some(s) => *s,
                                    None => PileSize::Small,
                                };
                                let default_addr = local_address.concat(":4088");
                                let width = clipped_len(&default_addr);
                                *self = MenuState::WaitingForConnection {
                                    form: StringForm::new(
                                        String::from_str("IP to expose"),
                                        width,
                                        Some(default_addr),
                                    ),
                                    game: GameState::new(
                                        &amount_choice,
                                        &size_choice,
                                        PlayerType::Host,
                                    ),
                                };
                            },
                            None => {
                                *selected = Some(false);
                            },
                        }
                    },
                    _ => {},
                }
                MenuStateTransition::Continue
            },
            MenuState::ConnectToPeer { form, client_connected } => {
                match key {
                    Key::Enter => {
                        let address = form.consume();
                        if *client_connected {
                            MenuStateTransition::Handshake { address }
                        } else {
                            MenuStateTransition::Probe { address }
                        }
                    },
                    _ => {
                        form.handle_key(key);
                        MenuStateTransition::Continue
                    },
                }
            },
            MenuState::WaitingForConnection { form, game } => {
                match key {
                    Key::Enter => {
                        let address = form.consume();
                        let opened = game.clone();
                        MenuStateTransition::GameOpen { address, game: opened }
                    },
                    _ => {
                        form.handle_key(key);
                        MenuStateTransition::Continue
                    },
                }
            },
        }
    }

    /// The outcome of the liveness probe that `handle_key` asked for.
    /// On success the link is recorded and the form switches to asking
    /// which address to expose; on failure the error text is shown in
    /// the form and the state stays as it was.
    pub fn handle_probe_result(&mut self, success: bool, error_text: String, local_address: String)
        requires
            old(self).inv(),
        ensures
            final(self).inv(),
            *old(self) matches MenuState::ConnectToPeer { form, client_connected } ==> (
            !client_connected ==> {
                &&& *final(self) matches MenuState::ConnectToPeer {
                    form: f2,
                    client_connected: c2,
                }
                &&& success ==> c2 && f2.label@ == "IP to expose"@ && f2.state@ == local_address@
                    + ":4088"@
                &&& !success ==> !c2 && f2.label@ == form.label@ && f2.state@ == error_text@
            }),
            !(*old(self) matches MenuState::ConnectToPeer { form: _, client_connected: false })
                ==> *final(self) == *old(self),
    {
        match self {
            MenuState::ConnectToPeer { form, client_connected } => {
                if !*client_connected {
                    if success {
                        let default_addr = local_address.concat(":4088");
                        let width = clipped_len(&default_addr);
                        *form = StringForm::new(
                            String::from_str("IP to expose"),
                            width,
                            Some(default_addr),
                        );
                        *client_connected = true;
                    } else {
                        form.state = error_text;
                    }
                }
            },
            _ => {},
        }
    }
}

} // verus!
