//! Game engine: pile values, turn ownership, move validation, win detection.
use rand::Rng;
use vstd::prelude::*;

verus! {

/// How many piles a game is created with.
#[derive(Clone, Copy, Debug)]
pub enum PileAmount {
    Two,
    Five,
    Ten,
}

impl PileAmount {
    pub open spec fn spec_amount(self) -> int {
        match self {
            PileAmount::Two => 2,
            PileAmount::Five => 5,
            PileAmount::Ten => 10,
        }
    }

    pub fn amount(&self) -> (r: usize)
        ensures
            r == self.spec_amount(),
    {
        match self {
            PileAmount::Two => 2,
            PileAmount::Five => 5,
            PileAmount::Ten => 10,
        }
    }

    /// Display name of the choice.
    pub fn label(&self) -> (r: String)
        ensures
            matches!(self, PileAmount::Two) ==> r@ == "Two"@,
            matches!(self, PileAmount::Five) ==> r@ == "Five"@,
            matches!(self, PileAmount::Ten) ==> r@ == "Ten"@,
    {
        match self {
            PileAmount::Two => String::from_str("Two"),
            PileAmount::Five => String::from_str("Five"),
            PileAmount::Ten => String::from_str("Ten"),
        }
    }
}

/// Upper bound for the randomized initial size of each pile.
#[derive(Clone, Copy, Debug)]
pub enum PileSize {
    Small,
    Medium,
    Large,
}

impl PileSize {
    pub open spec fn spec_limit(self) -> int {
        match self {
            PileSize::Small => 5,
            PileSize::Medium => 10,
            PileSize::Large => 20,
        }
    }

    pub fn quantity_limit(&self) -> (r: i8)
        ensures
            r == self.spec_limit(),
    {
        match self {
            PileSize::Small => 5,
            PileSize::Medium => 10,
            PileSize::Large => 20,
        }
    }

    /// Display name of the choice.
    pub fn label(&self) -> (r: String)
        ensures
            matches!(self, PileSize::Small) ==> r@ == "Small"@,
            matches!(self, PileSize::Medium) ==> r@ == "Medium"@,
            matches!(self, PileSize::Large) ==> r@ == "Large"@,
    {
        match self {
            PileSize::Small => String::from_str("Small"),
            PileSize::Medium => String::from_str("Medium"),
            PileSize::Large => String::from_str("Large"),
        }
    }
}

/// The side a participant plays: the session creator (Host) or the joiner (Guest).
#[derive(Clone, Copy, PartialEq, Eq, Structural, Debug)]
pub enum PlayerType {
    Host,
    Guest,
}

pub open spec fn spec_flip(p: PlayerType) -> PlayerType {
    match p {
        PlayerType::Host => PlayerType::Guest,
        PlayerType::Guest => PlayerType::Host,
    }
}

impl PlayerType {
    pub fn flip(&mut self)
        ensures
            *final(self) == spec_flip(*old(self)),
    {
        *self = match self {
            PlayerType::Host => PlayerType::Guest,
            PlayerType::Guest => PlayerType::Host,
        };
    }
}

/// A keyboard key, as the engine understands it.
#[derive(Clone, Copy, Debug)]
pub enum Key {
    Left,
    Right,
    Up,
    Down,
    Enter,
    Backspace,
    Char(char),
    Esc,
    Other,
}

/// Mathematical model of a game state.
#[verifier::ext_equal]
pub ghost struct GameView {
    pub piles: Seq<i8>,
    pub selected: int,
    pub amount: Option<i8>,
    pub current: PlayerType,
    pub role: PlayerType,
}

impl GameView {
    /// Well-formedness: the selection is in range, piles are non-negative,
    /// and a staged amount never exceeds the selected pile.
    pub open spec fn wf(self) -> bool {
        &&& self.piles.len() > 0
        &&& 0 <= self.selected < self.piles.len()
        &&& forall|i: int| 0 <= i < self.piles.len() ==> 0 <= #[trigger] self.piles[i]
        &&& match self.amount {
            Some(a) => 0 <= a <= self.piles[self.selected],
            None => true,
        }
    }

    pub open spec fn game_over(self) -> bool {
        forall|i: int| 0 <= i < self.piles.len() ==> #[trigger] self.piles[i] == 0
    }
}

/// The staged amount after pressing Up: treat an unset amount as 0,
/// subtract one, clamp below at 0.
pub open spec fn amount_after_up(pre: GameView) -> i8 {
    let a = match pre.amount {
        Some(a) => a as int,
        None => 0,
    };
    if a >= 1 {
        (a - 1) as i8
    } else {
        0i8
    }
}

/// The staged amount after pressing Down: treat an unset amount as 0,
/// add one, clamp above at the selected pile's value.
pub open spec fn amount_after_down(pre: GameView) -> i8 {
    let a = match pre.amount {
        Some(a) => a as int,
        None => 0,
    };
    if a < pre.piles[pre.selected] {
        (a + 1) as i8
    } else {
        pre.piles[pre.selected]
    }
}

/// One step of the engine: what a key does to a game state.
/// A participant whose turn it is not changes nothing.
pub open spec fn spec_step(pre: GameView, key: Key) -> GameView {
    if pre.current != pre.role {
        pre
    } else {
        match key {
            Key::Left => GameView {
                amount: None,
                selected: (pre.selected + pre.piles.len() - 1) % (pre.piles.len() as int),
                ..pre
            },
            Key::Right => GameView {
                amount: None,
                selected: (pre.selected + 1) % (pre.piles.len() as int),
                ..pre
            },
            Key::Up => GameView { amount: Some(amount_after_up(pre)), ..pre },
            Key::Down => GameView { amount: Some(amount_after_down(pre)), ..pre },
            Key::Enter => match pre.amount {
                Some(a) => if a > 0 {
                    GameView {
                        piles: pre.piles.update(pre.selected, (pre.piles[pre.selected] - a) as i8),
                        amount: None,
                        current: spec_flip(pre.current),
                        ..pre
                    }
                } else {
                    pre
                },
                None => pre,
            },
            _ => pre,
        }
    }
}

/// Every key press keeps a well-formed game state well-formed.
pub proof fn lemma_step_preserves_wf(pre: GameView, key: Key)
    requires
        pre.wf(),
    ensures
        spec_step(pre, key).wf(),
{
    let n = pre.piles.len() as int;
    assert(0 <= (pre.selected + n - 1) % n < n) by (nonlinear_arith)
        requires
            n > 0,
    ;
    assert(0 <= (pre.selected + 1) % n < n) by (nonlinear_arith)
        requires
            n > 0,
    ;
}

/// Moving the selection one step left and then one step right (or the other
/// way round) brings it back to the pile it started on, from any position.
pub proof fn lemma_move_selection_inverse(pre: GameView)
    requires
        pre.wf(),
        pre.current == pre.role,
    ensures
        spec_step(spec_step(pre, Key::Left), Key::Right).selected == pre.selected,
        spec_step(spec_step(pre, Key::Right), Key::Left).selected == pre.selected,
{
    let n = pre.piles.len() as int;
    let s = pre.selected;
    assert(((s + n - 1) % n + 1) % n == s) by (nonlinear_arith)
        requires
            n > 0 && 0 <= s < n,
    ;
    assert(((s + 1) % n + n - 1) % n == s) by (nonlinear_arith)
        requires
            n > 0 && 0 <= s < n,
    ;
}

/// Confirming a move with no staged amount, or a staged amount of zero,
/// changes nothing. Confirming a positive staged amount subtracts exactly
/// that amount from the selected pile and no other, strictly decreasing it,
/// clears the staged amount, and passes the turn to the other side.
pub proof fn lemma_confirm_move(pre: GameView)
    requires
        pre.wf(),
        pre.current == pre.role,
    ensures
        pre.amount is None ==> spec_step(pre, Key::Enter) == pre,
        pre.amount == Some(0i8) ==> spec_step(pre, Key::Enter) == pre,
        pre.amount is Some && pre.amount->0 > 0 ==> {
            &&& spec_step(pre, Key::Enter).piles.len() == pre.piles.len()
            &&& spec_step(pre, Key::Enter).piles[pre.selected] == pre.piles[pre.selected]
                - pre.amount->0
            &&& spec_step(pre, Key::Enter).piles[pre.selected] < pre.piles[pre.selected]
            &&& (forall|i: int|
                0 <= i < pre.piles.len() && i != pre.selected
                    ==> spec_step(pre, Key::Enter).piles[i] == pre.piles[i])
            &&& spec_step(pre, Key::Enter).amount is None
            &&& spec_step(pre, Key::Enter).current == spec_flip(pre.current)
            &&& spec_step(pre, Key::Enter).selected == pre.selected
            &&& spec_step(pre, Key::Enter).role == pre.role
        },
{
}

/// Shared state of one running game.
pub struct GameState {
    pub piles: Vec<i8>,
    pub selected_pile: usize,
    pub amount_selected: Option<i8>,
    pub current_player: PlayerType,
    pub player_type: PlayerType,
}

impl View for GameState {
    type V = GameView;

    open spec fn view(&self) -> GameView {
        GameView {
            piles: self.piles@,
            selected: self.selected_pile as int,
            amount: self.amount_selected,
            current: self.current_player,
            role: self.player_type,
        }
    }
}

/// Relies on rand::Rng::gen_range over an inclusive nonempty range:
/// the sample lies within the bounds.
#[verifier::external_body]
fn random_in_range(lo: i8, hi: i8) -> (r: i8)
    requires
        lo <= hi,
    ensures
        lo <= r <= hi,
{
    rand::thread_rng().gen_range(lo..=hi)
}

fn clone_piles(v: &Vec<i8>) -> (r: Vec<i8>)
    ensures
        r@ == v@,
{
    let mut r: Vec<i8> = Vec::new();
    let mut i: usize = 0;
    while i < v.len()
        invariant
            0 <= i <= v@.len(),
            r@ == v@.take(i as int),
        decreases v@.len() - i,
    {
        r.push(v[i]);
        proof {
            assert(r@ =~= v@.take(i + 1 as int));
        }
        i += 1;
    }
    proof {
        assert(v@.take(v@.len() as int) =~= v@);
    }
    r
}

impl Clone for GameState {
    fn clone(&self) -> (r: Self)
        ensures
            r@ == self@,
    {
        GameState {
            piles: clone_piles(&self.piles),
            selected_pile: self.selected_pile,
            amount_selected: self.amount_selected,
            current_player: self.current_player,
            player_type: self.player_type,
        }
    }
}

impl Default for GameState {
    /// An empty placeholder state, overwritten before play begins.
    fn default() -> (r: Self)
        ensures
            r@.piles.len() == 0,
            r@.selected == 0,
            r@.amount is None,
            r@.current == PlayerType::Host,
            r@.role == PlayerType::Host,
    {
        GameState {
            piles: Vec::new(),
            selected_pile: 0,
            amount_selected: None,
            current_player: PlayerType::Host,
            player_type: PlayerType::Host,
        }
    }
}

impl GameState {
    /// A fresh game: the chosen number of piles, each randomized in
    /// [1, limit]; the Host moves first; the local role is as given.
    pub fn new(pile_amount: &PileAmount, pile_sizes: &PileSize, player_type: PlayerType) -> (r:
        Self)
        ensures
            r@.wf(),
            r@.piles.len() == pile_amount.spec_amount(),
            forall|i: int|
                0 <= i < r@.piles.len() ==> 1 <= #[trigger] r@.piles[i] <= pile_sizes.spec_limit(),
            r@.selected == 0,
            r@.amount is None,
            r@.current == PlayerType::Host,
            r@.role == player_type,
    {
        let count = pile_amount.amount();
        let limit = pile_sizes.quantity_limit();
        let mut piles: Vec<i8> = Vec::new();
        let mut i: usize = 0;
        while i < count
            invariant
                0 <= i <= count,
                piles@.len() == i,
                1 <= limit,
                limit == pile_sizes.spec_limit(),
                forall|j: int| 0 <= j < i ==> 1 <= #[trigger] piles@[j] <= limit,
            decreases count - i,
        {
            piles.push(random_in_range(1, limit));
            i += 1;
        }
        GameState {
            piles,
            selected_pile: 0,
            amount_selected: None,
            current_player: PlayerType::Host,
            player_type,
        }
    }

    /// Carry out the staged move: subtract the staged amount from the
    /// selected pile, clear it, and pass the turn to the other side.
    pub fn pick(&mut self)
        requires
            old(self)@.wf(),
            old(self)@.amount is Some,
        ensures
            final(self)@ == (GameView {
                piles: old(self)@.piles.update(
                    old(self)@.selected,
                    (old(self)@.piles[old(self)@.selected] - old(self)@.amount->0) as i8,
                ),
                amount: None,
                current: spec_flip(old(self)@.current),
                ..old(self)@
            }),
            final(self)@.wf(),
    {
        let amount = match self.amount_selected {
            Some(a) => a,
            None => 0,
        };
        self.amount_selected = None;
        let sel = self.selected_pile;
        let cur = self.piles[sel];
        self.piles[sel] = cur - amount;
        self.current_player.flip();
    }

    /// Move the selection one pile to the right, wrapping around.
    pub fn next(&mut self)
        requires
            old(self)@.wf(),
        ensures
            final(self)@ == (GameView {
                selected: (old(self)@.selected + 1) % (old(self)@.piles.len() as int),
                ..old(self)@
            }),
    {
        let n = self.piles.len();
        self.selected_pile = (self.selected_pile + 1) % n;
    }

    /// Move the selection one pile to the left, wrapping around.
    pub fn previous(&mut self)
        requires
            old(self)@.wf(),
        ensures
            final(self)@ == (GameView {
                selected: (old(self)@.selected + old(self)@.piles.len() - 1) % (
                old(self)@.piles.len() as int),
                ..old(self)@
            }),
    {
        let n = self.piles.len();
        let s = self.selected_pile;
        if s == 0 {
            self.selected_pile = n - 1;
            proof {
                let ni = n as int;
                assert((0 + ni - 1) % ni == ni - 1) by (nonlinear_arith)
                    requires
                        ni > 0,
                ;
            }
        } else {
            self.selected_pile = s - 1;
            proof {
                let ni = n as int;
                let si = s as int;
                assert((si + ni - 1) % ni == si - 1) by (nonlinear_arith)
                    requires
                        0 < si < ni,
                ;
            }
        }
    }

    /// The game is over exactly when every pile is empty.
    pub fn is_game_over(&self) -> (r: bool)
        ensures
            r == self@.game_over(),
    {
        let mut i: usize = 0;
        while i < self.piles.len()
            invariant
                0 <= i <= self.piles@.len(),
                forall|j: int| 0 <= j < i ==> #[trigger] self.piles@[j] == 0,
            decreases self.piles@.len() - i,
        {
            if self.piles[i] != 0 {
                proof {
                    assert(!self@.game_over()) by {
                        assert(self@.piles[i as int] != 0);
                    }
                }
                return false;
            }
            i += 1;
        }
        true
    }

    /// Handle one key press; the returned flag says whether the state changed.
    /// Out-of-turn input changes nothing, including the staged amount.
    pub fn handle_key(&mut self, key: Key) -> (changed: bool)
        requires
            old(self)@.wf(),
        ensures
            final(self)@ == spec_step(old(self)@, key),
            final(self)@.wf(),
            changed == (spec_step(old(self)@, key) != old(self)@),
    {
        proof {
            lemma_step_preserves_wf(old(self)@, key);
        }
        if self.current_player != self.player_type {
            return false;
        }
        match key {
            Key::Left => {
                let was_set = self.amount_selected.is_some();
                self.amount_selected = None;
                let before = self.selected_pile;
                self.previous();
                was_set || self.selected_pile != before
            },
            Key::Right => {
                let was_set = self.amount_selected.is_some();
                self.amount_selected = None;
                let before = self.selected_pile;
                self.next();
                was_set || self.selected_pile != before
            },
            Key::Up => {
                match self.amount_selected {
                    Some(a) => {
                        let na = if a >= 1 {
                            a - 1
                        } else {
                            0
                        };
                        self.amount_selected = Some(na);
                        na != a
                    },
                    None => {
                        self.amount_selected = Some(0);
                        true
                    },
                }
            },
            Key::Down => {
                let pile = self.piles[self.selected_pile];
                match self.amount_selected {
                    Some(a) => {
                        let na = if a < pile {
                            a + 1
                        } else {
                            pile
                        };
                        self.amount_selected = Some(na);
                        na != a
                    },
                    None => {
                        let na = if 0 < pile {
                            1
                        } else {
                            0
                        };
                        self.amount_selected = Some(na);
                        true
                    },
                }
            },
            Key::Enter => {
                match self.amount_selected {
                    Some(a) => {
                        if a > 0 {
                            proof {
                                let pre = old(self)@;
                                let post = spec_step(pre, key);
                                assert(post.piles[pre.selected] != pre.piles[pre.selected]);
                            }
                            self.pick();
                            true
                        } else {
                            false
                        }
                    },
                    None => false,
                }
            },
            _ => false,
        }
    }

    /// Adopt a state received in the connection handshake as one's own:
    /// the local role becomes Guest, everything else is kept.
    pub fn adopt_guest_role(&mut self)
        ensures
            final(self)@ == (GameView { role: PlayerType::Guest, ..old(self)@ }),
    {
        self.player_type = PlayerType::Guest;
    }

    /// The same state as the other side must see it: every field copied,
    /// the role flipped to the recipient's perspective.
    pub fn to_peer_perspective(&self) -> (r: GameState)
        ensures
            r@ == (GameView { role: spec_flip(self@.role), ..self@ }),
    {
        GameState {
            piles: clone_piles(&self.piles),
            selected_pile: self.selected_pile,
            amount_selected: self.amount_selected,
            current_player: self.current_player,
            player_type: match self.player_type {
                PlayerType::Host => PlayerType::Guest,
                PlayerType::Guest => PlayerType::Host,
            },
        }
    }
}

} // verus!
