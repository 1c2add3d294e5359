//! The overlay's decisions: which key was pressed, how the selection moves
//! over the grid of workspace cards, and what the compositor is asked to do.
//! The caller performs the returned actions and closes the overlay when
//! told to.
use vstd::prelude::*;

use crate::ipc::{workspace_views, WorkspaceInfo, WorkspaceView};

verus! {

broadcast use vstd::seq_lib::group_seq_properties;

// ── keys ────────────────────────────────────────────────────────────────────

pub const XKB_KEY_ESCAPE: u32 = 0xff1b;
pub const XKB_KEY_RETURN: u32 = 0xff0d;
pub const XKB_KEY_LEFT: u32 = 0xff51;
pub const XKB_KEY_UP: u32 = 0xff52;
pub const XKB_KEY_RIGHT: u32 = 0xff53;
pub const XKB_KEY_DOWN: u32 = 0xff54;
pub const XKB_KEY_H: u32 = 0x0068;
pub const XKB_KEY_J: u32 = 0x006a;
pub const XKB_KEY_K: u32 = 0x006b;
pub const XKB_KEY_L: u32 = 0x006c;
pub const XKB_KEY_M: u32 = 0x006d;
pub const XKB_KEY_1: u32 = 0x0031;
pub const XKB_KEY_9: u32 = 0x0039;

// Linux evdev codes of the keys the overlay uses (`linux/input-event-codes.h`).
pub const EVDEV_KEY_ESC: u32 = 1;
pub const EVDEV_KEY_1: u32 = 2;
pub const EVDEV_KEY_9: u32 = 10;
pub const EVDEV_KEY_ENTER: u32 = 28;
pub const EVDEV_KEY_H: u32 = 35;
pub const EVDEV_KEY_J: u32 = 36;
pub const EVDEV_KEY_K: u32 = 37;
pub const EVDEV_KEY_L: u32 = 38;
pub const EVDEV_KEY_M: u32 = 50;
pub const EVDEV_KEY_UP: u32 = 103;
pub const EVDEV_KEY_LEFT: u32 = 105;
pub const EVDEV_KEY_RIGHT: u32 = 106;
pub const EVDEV_KEY_DOWN: u32 = 108;

/// Left mouse button (evdev code).
pub const BTN_LEFT: u32 = 0x110;

/// Right mouse button (evdev code).
pub const BTN_RIGHT: u32 = 0x111;

/// The keysym an evdev keycode stands for, for the keys the overlay uses
/// (Escape, Return, arrows, h j k l m, 1 to 9); 0 for any other key.
pub open spec fn keysym_of(keycode: u32) -> u32 {
    if keycode == 1 {
        XKB_KEY_ESCAPE
    } else if keycode == 28 {
        XKB_KEY_RETURN
    } else if keycode == 105 {
        XKB_KEY_LEFT
    } else if keycode == 103 {
        XKB_KEY_UP
    } else if keycode == 106 {
        XKB_KEY_RIGHT
    } else if keycode == 108 {
        XKB_KEY_DOWN
    } else if keycode == 35 {
        XKB_KEY_H
    } else if keycode == 36 {
        XKB_KEY_J
    } else if keycode == 37 {
        XKB_KEY_K
    } else if keycode == 38 {
        XKB_KEY_L
    } else if keycode == 50 {
        XKB_KEY_M
    } else if 2 <= keycode <= 10 {
        (XKB_KEY_1 + keycode - 2) as u32
    } else {
        0
    }
}

/// Maps the raw evdev keycode that `wl_keyboard` sends to an XKB keysym.
pub fn keycode_to_keysym(keycode: u32) -> (res: u32)
    ensures
        res == keysym_of(keycode),
{
    match keycode {
        1 => XKB_KEY_ESCAPE,
        28 => XKB_KEY_RETURN,
        105 => XKB_KEY_LEFT,
        103 => XKB_KEY_UP,
        106 => XKB_KEY_RIGHT,
        108 => XKB_KEY_DOWN,
        35 => XKB_KEY_H,
        36 => XKB_KEY_J,
        37 => XKB_KEY_K,
        38 => XKB_KEY_L,
        50 => XKB_KEY_M,
        2..=10 => XKB_KEY_1 + (keycode - 2),
        _ => 0,
    }
}

// ── the grid ────────────────────────────────────────────────────────────────

/// The number of card columns for `n` workspaces: the ceiling of the square
/// root of `n`, and at least 1.
pub open spec fn is_grid_cols(n: int, c: int) -> bool {
    &&& c >= 1
    &&& c * c >= n
    &&& (c == 1 || (c - 1) * (c - 1) < n)
}

/// Number of card columns: the ceiling of the square root of `n`, at least 1.
pub fn grid_cols(n: usize) -> (res: usize)
    ensures
        is_grid_cols(n as int, res as int),
{
    let mut c: u64 = 1;
    let mut sq: u128 = 1;
    while sq < n as u128
        invariant
            c >= 1,
            sq == c * c,
            c == 1 || (c - 1) * (c - 1) < n,
            c <= 0x1_0000_0000,
        decreases n - c,
    {
        assert(c + 1 <= 0x1_0000_0000 && c < n) by (nonlinear_arith)
            requires
                c * c < n,
                n <= usize::MAX,
                c >= 1,
        ;
        assert((c + 1) * (c + 1) == c * c + 2 * c + 1) by (nonlinear_arith);
        sq = sq + 2 * (c as u128) + 1;
        c = c + 1;
    }
    assert(c <= n || c == 1) by (nonlinear_arith)
        requires
            c >= 1,
            c == 1 || (c - 1) * (c - 1) < n,
    ;
    c as usize
}

/// Number of card rows for `n` cards in `cols` columns: `n / cols` rounded up.
pub fn grid_rows(n: usize, cols: usize) -> (res: usize)
    requires
        cols >= 1,
    ensures
        res as int == (n as int + cols as int - 1) / cols as int,
{
    let q = n / cols;
    let r = n % cols;
    if r != 0 {
        assert(q < n) by (nonlinear_arith)
            requires
                q == n / cols,
                r == n % cols,
                r != 0,
                cols >= 1,
        ;
    }
    let res = if r != 0 {
        q + 1
    } else {
        q
    };
    assert(res as int == (n as int + cols as int - 1) / cols as int) by (nonlinear_arith)
        requires
            q == n / cols,
            r == n % cols,
            res == if r != 0 {
                q as int + 1
            } else {
                q as int
            },
            cols >= 1,
    ;
    res
}

// ── navigation ──────────────────────────────────────────────────────────────

/// What the compositor is asked to do.
#[derive(Debug, Clone, Copy, PartialEq, Eq, Structural)]
pub enum Action {
    /// Focus the workspace at this index of the list.
    Switch(usize),
    /// Move the window with this address to the workspace at this index.
    MoveWindow { address: u64, workspace: usize },
}

/// Selection state of the overlay over `workspace_count` workspace cards.
#[derive(Debug, Clone, Copy)]
pub struct Navigator {
    pub workspace_count: usize,
    pub selected: usize,
    pub needs_redraw: bool,
    /// The focused window when the overlay opened; 0 for none.
    pub active_window_address: u64,
    /// Whether moving a window also focuses its new workspace.
    pub switch_on_move: bool,
}

/// The outcome of an input event.
pub struct Outcome {
    /// Requests for the compositor, in order.
    pub actions: Vec<Action>,
    /// Whether the overlay should close.
    pub close: bool,
}

impl Navigator {
    /// The selection is on a card (or there are no cards and it is 0).
    pub open spec fn wf(self) -> bool {
        if self.workspace_count == 0 {
            self.selected == 0
        } else {
            self.selected < self.workspace_count
        }
    }

    pub open spec fn with_selection(self, i: usize) -> Navigator {
        Navigator { selected: i, needs_redraw: true, ..self }
    }

    /// Focusing the selected workspace, when the selection is on a card.
    pub open spec fn activate_actions(self) -> Seq<Action> {
        if self.selected < self.workspace_count {
            seq![Action::Switch(self.selected)]
        } else {
            Seq::empty()
        }
    }

    /// Moving the active window to the selected workspace (and focusing that
    /// workspace if so configured); `None` when there is no active window or
    /// no selected card, and nothing is done.
    pub open spec fn move_actions(self) -> Option<Seq<Action>> {
        if self.active_window_address == 0 || self.selected >= self.workspace_count {
            None
        } else {
            Some(
                seq![
                    Action::MoveWindow {
                        address: self.active_window_address,
                        workspace: self.selected,
                    },
                ] + if self.switch_on_move {
                    seq![Action::Switch(self.selected)]
                } else {
                    Seq::empty()
                },
            )
        }
    }

    /// The new state, the requests and whether to close, for a key press.
    pub open spec fn key_step(self, keysym: u32) -> (Navigator, Seq<Action>, bool) {
        let n = self.workspace_count as int;
        let cols = choose|c: int| #[trigger] is_grid_cols(n, c);
        let s = self.selected as int;
        if n == 0 {
            (self, Seq::empty(), true)
        } else if keysym == XKB_KEY_ESCAPE {
            (self, Seq::empty(), true)
        } else if XKB_KEY_1 <= keysym <= XKB_KEY_9 {
            let idx = keysym - XKB_KEY_1;
            (self, if idx < n {
                seq![Action::Switch(idx as usize)]
            } else {
                Seq::empty()
            }, true)
        } else if keysym == XKB_KEY_RETURN {
            (self, self.activate_actions(), true)
        } else if keysym == XKB_KEY_RIGHT || keysym == XKB_KEY_L {
            (if s + 1 < n {
                self.with_selection((s + 1) as usize)
            } else {
                self
            }, Seq::empty(), false)
        } else if keysym == XKB_KEY_LEFT || keysym == XKB_KEY_H {
            (if s > 0 {
                self.with_selection((s - 1) as usize)
            } else {
                self
            }, Seq::empty(), false)
        } else if keysym == XKB_KEY_DOWN || keysym == XKB_KEY_J {
            (if s + cols < n {
                self.with_selection((s + cols) as usize)
            } else {
                self
            }, Seq::empty(), false)
        } else if keysym == XKB_KEY_UP || keysym == XKB_KEY_K {
            (if s >= cols {
                self.with_selection((s - cols) as usize)
            } else {
                self
            }, Seq::empty(), false)
        } else if keysym == XKB_KEY_M {
            match self.move_actions() {
                Some(a) => (self, a, true),
                None => (self, Seq::empty(), false),
            }
        } else {
            (self, Seq::empty(), false)
        }
    }

    /// Focus the selected workspace, when the selection is on a card.
    pub fn activate_selected_workspace(&self) -> (res: Vec<Action>)
        ensures
            res@ == self.activate_actions(),
    {
        let mut res: Vec<Action> = Vec::new();
        if self.selected < self.workspace_count {
            res.push(Action::Switch(self.selected));
        }
        assert(res@ =~= self.activate_actions());
        res
    }

    /// Move the active window to the selected workspace; `None` when that
    /// cannot be done (no active window, or no selected card).
    pub fn move_active_window_to_selected(&self) -> (res: Option<Vec<Action>>)
        ensures
            match res {
                Some(v) => self.move_actions() == Some(v@),
                None => self.move_actions() is None,
            },
    {
        if self.active_window_address == 0 || self.selected >= self.workspace_count {
            return None;
        }
        let mut res: Vec<Action> = Vec::new();
        res.push(
            Action::MoveWindow { address: self.active_window_address, workspace: self.selected },
        );
        if self.switch_on_move {
            res.push(Action::Switch(self.selected));
        }
        assert(Some(res@) =~= self.move_actions());
        Some(res)
    }

    /// Handles a key press (an XKB keysym): moves the selection or asks for
    /// a switch or a move, and says whether the overlay should close.
    pub fn handle_key(&mut self, keysym: u32) -> (res: Outcome)
        ensures
            ({
                let (next, actions, close) = old(self).key_step(keysym);
                &&& *final(self) == next
                &&& res.actions@ == actions
                &&& res.close == close
            }),
    {
        let n = self.workspace_count;
        if n == 0 {
            return Outcome { actions: Vec::new(), close: true };
        }
        let cols = grid_cols(n);
        proof {
            lemma_grid_cols_unique(n as int, cols as int);
        }
        if keysym == XKB_KEY_ESCAPE {
            return Outcome { actions: Vec::new(), close: true };
        }
        if XKB_KEY_1 <= keysym && keysym <= XKB_KEY_9 {
            let idx = (keysym - XKB_KEY_1) as usize;
            let mut actions: Vec<Action> = Vec::new();
            if idx < n {
                actions.push(Action::Switch(idx));
            }
            assert(actions@ =~= self.key_step(keysym).1);
            return Outcome { actions, close: true };
        }
        if keysym == XKB_KEY_RETURN {
            let actions = self.activate_selected_workspace();
            return Outcome { actions, close: true };
        }
        if keysym == XKB_KEY_RIGHT || keysym == XKB_KEY_L {
            if self.selected < n - 1 {
                self.selected = self.selected + 1;
                self.needs_redraw = true;
            }
        } else if keysym == XKB_KEY_LEFT || keysym == XKB_KEY_H {
            if self.selected > 0 {
                self.selected = self.selected - 1;
                self.needs_redraw = true;
            }
        } else if keysym == XKB_KEY_DOWN || keysym == XKB_KEY_J {
            if cols < n && self.selected < n - cols {
                self.selected = self.selected + cols;
                self.needs_redraw = true;
            }
        } else if keysym == XKB_KEY_UP || keysym == XKB_KEY_K {
            if self.selected >= cols {
                self.selected = self.selected - cols;
                self.needs_redraw = true;
            }
        } else if keysym == XKB_KEY_M {
            match self.move_active_window_to_selected() {
                Some(actions) => {
                    return Outcome { actions, close: true };
                },
                None => {},
            }
        }
        let res = Outcome { actions: Vec::new(), close: false };
        assert(res.actions@ =~= Seq::<Action>::empty());
        res
    }

    /// Puts the selection on the card under the pointer, if any.
    pub fn select_workspace_at(&mut self, hit: Option<usize>)
        ensures
            *final(self) == match hit {
                Some(i) => if i != old(self).selected {
                    old(self).with_selection(i)
                } else {
                    *old(self)
                },
                None => *old(self),
            },
    {
        if let Some(i) = hit {
            if self.selected != i {
                self.selected = i;
                self.needs_redraw = true;
            }
        }
    }

    /// The requests and whether to close for a press of a mouse button, when
    /// the pointer is over a card or not: left focuses the selected
    /// workspace, right moves the active window there.
    pub open spec fn button_step(self, button: u32, over_card: bool) -> (Seq<Action>, bool) {
        if !over_card {
            (Seq::empty(), false)
        } else if button == BTN_LEFT {
            (self.activate_actions(), true)
        } else if button == BTN_RIGHT {
            match self.move_actions() {
                Some(a) => (a, true),
                None => (Seq::empty(), false),
            }
        } else {
            (Seq::empty(), false)
        }
    }

    /// Handles a mouse button press.
    pub fn handle_button(&self, button: u32, over_card: bool) -> (res: Outcome)
        ensures
            (res.actions@, res.close) == self.button_step(button, over_card),
    {
        if !over_card {
            return Outcome { actions: Vec::new(), close: false };
        }
        if button == BTN_LEFT {
            let actions = self.activate_selected_workspace();
            return Outcome { actions, close: true };
        }
        if button == BTN_RIGHT {
            match self.move_active_window_to_selected() {
                Some(actions) => {
                    return Outcome { actions, close: true };
                },
                None => {},
            }
        }
        Outcome { actions: Vec::new(), close: false }
    }
}

/// There is one column count for each number of cards.
pub proof fn lemma_grid_cols_unique(n: int, c: int)
    requires
        is_grid_cols(n, c),
    ensures
        (choose|d: int| #[trigger] is_grid_cols(n, d)) == c,
{
    assert forall|d: int| is_grid_cols(n, d) implies d == c by {
        if d < c {
            assert(d * d <= (c - 1) * (c - 1)) by (nonlinear_arith)
                requires
                    1 <= d <= c - 1,
            ;
        } else if d > c {
            assert(c * c <= (d - 1) * (d - 1)) by (nonlinear_arith)
                requires
                    1 <= c <= d - 1,
            ;
        }
    }
}

// ── laws of navigation ──────────────────────────────────────────────────────

/// A key press keeps the selection on a card.
pub proof fn lemma_key_step_keeps_selection(nav: Navigator, keysym: u32)
    requires
        nav.wf(),
    ensures
        nav.key_step(keysym).0.wf(),
{
    let n = nav.workspace_count as int;
    if n > 0 {
        lemma_grid_cols_exists(n);
    }
}

/// Every request names a workspace card that exists.
pub proof fn lemma_key_step_actions_in_range(nav: Navigator, keysym: u32)
    ensures
        forall|i: int|
            0 <= i < nav.key_step(keysym).1.len() ==> match #[trigger] nav.key_step(keysym).1[i] {
                Action::Switch(w) => w < nav.workspace_count,
                Action::MoveWindow { address, workspace } => workspace < nav.workspace_count
                    && address != 0 && address == nav.active_window_address,
            },
{
}

/// Stepping left and then right returns to the same card, and so does
/// right then left, down then up.
pub proof fn lemma_moves_undo(nav: Navigator)
    requires
        nav.wf(),
        nav.workspace_count > 0,
    ensures
        nav.selected > 0 ==> nav.key_step(XKB_KEY_LEFT).0.key_step(XKB_KEY_RIGHT).0.selected
            == nav.selected,
        nav.selected + 1 < nav.workspace_count ==> nav.key_step(XKB_KEY_RIGHT).0.key_step(
            XKB_KEY_LEFT,
        ).0.selected == nav.selected,
        nav.key_step(XKB_KEY_DOWN).0.selected != nav.selected ==> nav.key_step(
            XKB_KEY_DOWN,
        ).0.key_step(XKB_KEY_UP).0.selected == nav.selected,
{
    let n = nav.workspace_count as int;
    lemma_grid_cols_exists(n);
}

/// Each key's evdev code gives the keysym of the key printed on it: the
/// arrows give the arrows, Enter gives Return, Escape gives Escape, the
/// letters h j k l m give those letters, and the digits 1 to 9 give the
/// digits; every other key gives 0.
pub proof fn lemma_keycodes_name_their_keys()
    ensures
        keysym_of(EVDEV_KEY_UP) == XKB_KEY_UP,
        keysym_of(EVDEV_KEY_DOWN) == XKB_KEY_DOWN,
        keysym_of(EVDEV_KEY_LEFT) == XKB_KEY_LEFT,
        keysym_of(EVDEV_KEY_RIGHT) == XKB_KEY_RIGHT,
        keysym_of(EVDEV_KEY_ENTER) == XKB_KEY_RETURN,
        keysym_of(EVDEV_KEY_ESC) == XKB_KEY_ESCAPE,
        keysym_of(EVDEV_KEY_H) == XKB_KEY_H,
        keysym_of(EVDEV_KEY_J) == XKB_KEY_J,
        keysym_of(EVDEV_KEY_K) == XKB_KEY_K,
        keysym_of(EVDEV_KEY_L) == XKB_KEY_L,
        keysym_of(EVDEV_KEY_M) == XKB_KEY_M,
        forall|d: u32| d <= 8 ==> #[trigger] keysym_of((EVDEV_KEY_1 + d) as u32) == XKB_KEY_1 + d,
        forall|k: u32|
            !(EVDEV_KEY_1 <= k <= EVDEV_KEY_9) && k != EVDEV_KEY_UP && k != EVDEV_KEY_DOWN && k
                != EVDEV_KEY_LEFT && k != EVDEV_KEY_RIGHT && k != EVDEV_KEY_ENTER && k
                != EVDEV_KEY_ESC && k != EVDEV_KEY_H && k != EVDEV_KEY_J && k != EVDEV_KEY_K && k
                != EVDEV_KEY_L && k != EVDEV_KEY_M ==> #[trigger] keysym_of(k) == 0,
{
}

/// The vim keys act as the arrows: j as Down, k as Up, h as Left, l as
/// Right, in every state.
pub proof fn lemma_vim_keys_are_arrows(nav: Navigator)
    ensures
        nav.key_step(XKB_KEY_J) == nav.key_step(XKB_KEY_DOWN),
        nav.key_step(XKB_KEY_K) == nav.key_step(XKB_KEY_UP),
        nav.key_step(XKB_KEY_H) == nav.key_step(XKB_KEY_LEFT),
        nav.key_step(XKB_KEY_L) == nav.key_step(XKB_KEY_RIGHT),
{
}

/// The arrows move the selection the way they point: Right one card on,
/// Left one card back, Down one row (a row of `cols` cards) on, Up one row
/// back, each when that card exists and otherwise not at all; they never
/// close the overlay or ask anything of the compositor.
pub proof fn lemma_arrows_move_their_way(nav: Navigator, cols: int)
    requires
        nav.workspace_count > 0,
        is_grid_cols(nav.workspace_count as int, cols),
    ensures
        ({
            let s = nav.selected as int;
            let n = nav.workspace_count as int;
            &&& nav.key_step(XKB_KEY_RIGHT).0.selected == (if s + 1 < n {
                s + 1
            } else {
                s
            })
            &&& nav.key_step(XKB_KEY_LEFT).0.selected == (if s > 0 {
                s - 1
            } else {
                s
            })
            &&& nav.key_step(XKB_KEY_DOWN).0.selected == (if s + cols < n {
                s + cols
            } else {
                s
            })
            &&& nav.key_step(XKB_KEY_UP).0.selected == (if s >= cols {
                s - cols
            } else {
                s
            })
        }),
        forall|key: u32|
            key == XKB_KEY_RIGHT || key == XKB_KEY_LEFT || key == XKB_KEY_DOWN || key == XKB_KEY_UP
                ==> !(#[trigger] nav.key_step(key)).2 && nav.key_step(key).1.len() == 0,
{
    lemma_grid_cols_unique(nav.workspace_count as int, cols);
}

/// Pressing the key printed Up (or Left) never moves the selection on, and
/// Down (or Right) never moves it back.
pub proof fn lemma_physical_arrows(nav: Navigator)
    ensures
        nav.key_step(keysym_of(EVDEV_KEY_UP)).0.selected <= nav.selected,
        nav.key_step(keysym_of(EVDEV_KEY_LEFT)).0.selected <= nav.selected,
        nav.key_step(keysym_of(EVDEV_KEY_DOWN)).0.selected >= nav.selected,
        nav.key_step(keysym_of(EVDEV_KEY_RIGHT)).0.selected >= nav.selected,
{
    let n = nav.workspace_count as int;
    if n > 0 {
        lemma_grid_cols_exists(n);
    }
}

/// Every number of cards has a column count.
pub proof fn lemma_grid_cols_exists(n: int)
    requires
        n >= 0,
    ensures
        exists|c: int| #[trigger] is_grid_cols(n, c),
    decreases n,
{
    if n <= 1 {
        assert(is_grid_cols(n, 1));
    } else {
        lemma_grid_cols_exists(n - 1);
        let c = choose|c: int| #[trigger] is_grid_cols(n - 1, c);
        if c * c >= n {
            assert(is_grid_cols(n, c));
        } else {
            assert(c * c == n - 1);
            assert(is_grid_cols(n, c + 1)) by (nonlinear_arith)
                requires
                    c * c == n - 1,
                    c >= 1,
            ;
        }
    }
}

// ── opening the overlay ─────────────────────────────────────────────────────

/// Index of the first workspace at or after `i` with the given name.
pub open spec fn position_of_name(ws: Seq<WorkspaceView>, name: Seq<char>, i: int) -> Option<int>
    decreases ws.len() - i,
{
    if i >= ws.len() || i < 0 {
        None
    } else if ws[i].name == name {
        Some(i)
    } else {
        position_of_name(ws, name, i + 1)
    }
}

/// The card selected when the overlay opens: that of the focused workspace,
/// or the first.
pub fn initial_selection(workspaces: &Vec<WorkspaceInfo>, active: &String) -> (res: usize)
    ensures
        res as int == match position_of_name(workspace_views(workspaces@), active@, 0) {
            Some(i) => i,
            None => 0,
        },
        workspaces@.len() == 0 ==> res == 0,
        workspaces@.len() > 0 ==> res < workspaces@.len(),
{
    let ghost s = workspace_views(workspaces@);
    let mut i: usize = 0;
    while i < workspaces.len()
        invariant
            i <= workspaces@.len(),
            s == workspace_views(workspaces@),
            position_of_name(s, active@, i as int) == position_of_name(s, active@, 0),
        decreases workspaces@.len() - i,
    {
        if workspaces[i].name == *active {
            return i;
        }
        i = i + 1;
    }
    0
}

/// The address of every window of every workspace, in order.
pub open spec fn all_addresses(ws: Seq<WorkspaceView>) -> Seq<u64>
    decreases ws.len(),
{
    if ws.len() == 0 {
        Seq::empty()
    } else {
        all_addresses(ws.drop_last()) + ws.last().clients.map_values(
            |c: crate::ipc::ClientView| c.address,
        )
    }
}

/// The windows to take thumbnails of, in order.
pub fn client_addresses(workspaces: &Vec<WorkspaceInfo>) -> (res: Vec<u64>)
    ensures
        res@ == all_addresses(workspace_views(workspaces@)),
{
    let ghost s = workspace_views(workspaces@);
    let mut res: Vec<u64> = Vec::new();
    let mut i: usize = 0;
    while i < workspaces.len()
        invariant
            i <= workspaces@.len(),
            s == workspace_views(workspaces@),
            res@ =~= all_addresses(s.take(i as int)),
        decreases workspaces@.len() - i,
    {
        let clients = &workspaces[i].clients;
        let ghost prefix = res@;
        let mut j: usize = 0;
        while j < clients.len()
            invariant
                j <= clients@.len(),
                res@ =~= prefix + s[i as int].clients.take(j as int).map_values(
                    |c: crate::ipc::ClientView| c.address,
                ),
                s[i as int].clients =~= crate::ipc::client_views(clients@),
            decreases clients@.len() - j,
        {
            res.push(clients[j].address);
            j = j + 1;
        }
        assert(s[i as int].clients.take(j as int) =~= s[i as int].clients);
        assert(s.take(i + 1).drop_last() =~= s.take(i as int));
        i = i + 1;
    }
    assert(s.take(i as int) =~= s);
    res
}

// ── display buffers ─────────────────────────────────────────────────────────

/// Which of the two display buffers to draw into: the one not attached
/// last, unless the compositor still holds it and holds not the other.
pub fn choose_buffer(busy: [bool; 2], last_attached: usize) -> (res: usize)
    requires
        last_attached < 2,
    ensures
        res < 2,
        res == (if !busy@[1 - last_attached] {
            1 - last_attached
        } else if !busy@[last_attached as int] {
            last_attached as int
        } else {
            1 - last_attached
        }),
{
    let next = 1 - last_attached;
    if !busy[next] {
        next
    } else if !busy[last_attached] {
        last_attached
    } else {
        next
    }
}


/// A damage rectangle (x, y, width, height) in buffer pixels.
pub type Rect = (i32, i32, i32, i32);

/// The rectangles of `s` that are present, each once, in order of first
/// appearance.
pub open spec fn unique_rects(s: Seq<Option<Rect>>) -> Seq<Rect>
    decreases s.len(),
{
    if s.len() == 0 {
        Seq::empty()
    } else {
        let r = unique_rects(s.drop_last());
        match s.last() {
            Some(x) => if r.contains(x) {
                r
            } else {
                r.push(x)
            },
            None => r,
        }
    }
}

/// The damage to report for a redraw: the highlight rectangles that exist,
/// without repeats.
pub fn damage_rects(candidates: &Vec<Option<Rect>>) -> (res: Vec<Rect>)
    ensures
        res@ == unique_rects(candidates@),
{
    let mut res: Vec<Rect> = Vec::new();
    let mut i: usize = 0;
    while i < candidates.len()
        invariant
            i <= candidates@.len(),
            res@ == unique_rects(candidates@.take(i as int)),
        decreases candidates@.len() - i,
    {
        assert(candidates@.take(i + 1).drop_last() =~= candidates@.take(i as int));
        if let Some(r) = candidates[i] {
            let mut j: usize = 0;
            let mut seen = false;
            while j < res.len()
                invariant
                    j <= res@.len(),
                    seen == exists|k: int| 0 <= k < j && res@[k] == r,
                decreases res@.len() - j,
            {
                let q = res[j];
                if q.0 == r.0 && q.1 == r.1 && q.2 == r.2 && q.3 == r.3 {
                    seen = true;
                }
                j = j + 1;
            }
            if !seen {
                res.push(r);
            }
        }
        i = i + 1;
    }
    assert(candidates@.take(i as int) =~= candidates@);
    res
}

/// No rectangle is reported twice.
pub proof fn lemma_unique_rects_distinct(s: Seq<Option<Rect>>)
    ensures
        forall|a: int, b: int|
            0 <= a < b < unique_rects(s).len() ==> unique_rects(s)[a] != unique_rects(s)[b],
    decreases s.len(),
{
    if s.len() > 0 {
        let r = unique_rects(s.drop_last());
        lemma_unique_rects_distinct(s.drop_last());
        if let Some(x) = s.last() {
            if !r.contains(x) {
                let u = r.push(x);
                assert forall|a: int, b: int| 0 <= a < b < u.len() implies u[a] != u[b] by {
                    if b == r.len() {
                        assert(u[a] == r[a]);
                    } else {
                        assert(u[a] == r[a] && u[b] == r[b]);
                    }
                }
            }
        }
    }
}
} // verus!
