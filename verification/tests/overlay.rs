use hyprexpose::overlay::damage_rects;
use hyprexpose::ipc::{ClientInfo, WorkspaceInfo};
use hyprexpose::overlay::{
    choose_buffer, client_addresses, grid_cols, grid_rows, initial_selection, keycode_to_keysym,
    Action, Navigator, BTN_LEFT, BTN_RIGHT, XKB_KEY_1, XKB_KEY_DOWN, XKB_KEY_ESCAPE, XKB_KEY_H,
    XKB_KEY_L, XKB_KEY_LEFT, XKB_KEY_M, XKB_KEY_RETURN, XKB_KEY_RIGHT, XKB_KEY_UP,
};

fn nav(count: usize, selected: usize) -> Navigator {
    Navigator {
        workspace_count: count,
        selected,
        needs_redraw: false,
        active_window_address: 0,
        switch_on_move: false,
    }
}

#[test]
fn keycodes() {
    assert_eq!(keycode_to_keysym(1), XKB_KEY_ESCAPE);
    assert_eq!(keycode_to_keysym(28), XKB_KEY_RETURN);
    assert_eq!(keycode_to_keysym(105), XKB_KEY_LEFT);
    assert_eq!(keycode_to_keysym(35), XKB_KEY_H);
    assert_eq!(keycode_to_keysym(50), XKB_KEY_M);
    assert_eq!(keycode_to_keysym(2), XKB_KEY_1);
    assert_eq!(keycode_to_keysym(10), 0x39);
    assert_eq!(keycode_to_keysym(11), 0);
    assert_eq!(keycode_to_keysym(0), 0);
}

#[test]
fn grid_shape() {
    let cols: Vec<usize> = (0..11).map(grid_cols).collect();
    assert_eq!(cols, vec![1, 1, 2, 2, 2, 3, 3, 3, 3, 3, 4]);
    assert_eq!(grid_cols(usize::MAX), 1 << 32);
    assert_eq!(grid_rows(4, 2), 2);
    assert_eq!(grid_rows(5, 3), 2);
    assert_eq!(grid_rows(0, 1), 0);
}

#[test]
fn arrows_move_within_grid() {
    // 5 workspaces: 3 columns
    let mut n = nav(5, 0);
    let out = n.handle_key(XKB_KEY_LEFT);
    assert!(!out.close && out.actions.is_empty());
    assert_eq!(n.selected, 0);
    assert!(!n.needs_redraw);
    n.handle_key(XKB_KEY_RIGHT);
    assert_eq!(n.selected, 1);
    assert!(n.needs_redraw);
    n.handle_key(XKB_KEY_DOWN);
    assert_eq!(n.selected, 4);
    n.handle_key(XKB_KEY_DOWN);
    assert_eq!(n.selected, 4);
    n.handle_key(XKB_KEY_L);
    assert_eq!(n.selected, 4);
    n.handle_key(XKB_KEY_UP);
    assert_eq!(n.selected, 1);
    n.handle_key(XKB_KEY_UP);
    assert_eq!(n.selected, 1);
}

#[test]
fn left_then_right_returns() {
    let mut n = nav(7, 3);
    n.handle_key(XKB_KEY_H);
    n.handle_key(XKB_KEY_L);
    assert_eq!(n.selected, 3);
}

#[test]
fn closing_keys() {
    let mut n = nav(3, 2);
    let out = n.handle_key(XKB_KEY_ESCAPE);
    assert!(out.close && out.actions.is_empty());
    let out = n.handle_key(XKB_KEY_RETURN);
    assert!(out.close);
    assert_eq!(out.actions, vec![Action::Switch(2)]);
    let out = n.handle_key(XKB_KEY_1 + 1);
    assert!(out.close);
    assert_eq!(out.actions, vec![Action::Switch(1)]);
    let out = n.handle_key(XKB_KEY_1 + 5);
    assert!(out.close && out.actions.is_empty());
    let mut empty = nav(0, 0);
    assert!(empty.handle_key(XKB_KEY_RIGHT).close);
    let out = n.handle_key(0x61);
    assert!(!out.close && out.actions.is_empty());
}

#[test]
fn move_key() {
    let mut n = nav(3, 1);
    let out = n.handle_key(XKB_KEY_M);
    assert!(!out.close && out.actions.is_empty());
    n.active_window_address = 0xabc;
    let out = n.handle_key(XKB_KEY_M);
    assert!(out.close);
    assert_eq!(out.actions, vec![Action::MoveWindow { address: 0xabc, workspace: 1 }]);
    n.switch_on_move = true;
    let out = n.handle_key(XKB_KEY_M);
    assert_eq!(
        out.actions,
        vec![Action::MoveWindow { address: 0xabc, workspace: 1 }, Action::Switch(1)]
    );
}

#[test]
fn mouse() {
    let mut n = nav(4, 0);
    n.select_workspace_at(Some(2));
    assert_eq!(n.selected, 2);
    assert!(n.needs_redraw);
    n.needs_redraw = false;
    n.select_workspace_at(Some(2));
    assert!(!n.needs_redraw);
    n.select_workspace_at(None);
    assert_eq!(n.selected, 2);
    let out = n.handle_button(BTN_LEFT, false);
    assert!(!out.close && out.actions.is_empty());
    let out = n.handle_button(BTN_LEFT, true);
    assert!(out.close);
    assert_eq!(out.actions, vec![Action::Switch(2)]);
    let out = n.handle_button(BTN_RIGHT, true);
    assert!(!out.close);
    n.active_window_address = 7;
    let out = n.handle_button(BTN_RIGHT, true);
    assert!(out.close);
    assert_eq!(out.actions, vec![Action::MoveWindow { address: 7, workspace: 2 }]);
    assert!(!n.handle_button(0x112, true).close);
}

fn client(address: u64) -> ClientInfo {
    ClientInfo {
        class_name: String::new(),
        title: String::new(),
        address,
        workspace_id: 1,
        x: 0,
        y: 0,
        w: 1,
        h: 1,
    }
}

fn ws(id: i32, name: &str, clients: Vec<ClientInfo>) -> WorkspaceInfo {
    WorkspaceInfo { id, name: name.to_string(), monitor_id: 0, clients }
}

#[test]
fn opening_selection_and_addresses() {
    let list = vec![ws(1, "1", vec![client(5), client(6)]), ws(2, "web", vec![]), ws(3, "3", vec![client(9)])];
    assert_eq!(initial_selection(&list, &"web".to_string()), 1);
    assert_eq!(initial_selection(&list, &"none".to_string()), 0);
    assert_eq!(initial_selection(&Vec::new(), &"web".to_string()), 0);
    assert_eq!(client_addresses(&list), vec![5, 6, 9]);
}

#[test]
fn buffers() {
    assert_eq!(choose_buffer([false, false], 1), 0);
    assert_eq!(choose_buffer([true, false], 1), 1);
    assert_eq!(choose_buffer([true, true], 1), 0);
    assert_eq!(choose_buffer([false, true], 0), 0);
}

#[test]
fn damage_rects_dedup() {
    let r0 = (0, 0, 10, 10);
    let r1 = (5, 5, 10, 10);
    assert_eq!(damage_rects(&vec![Some(r0), None, Some(r1), Some(r0)]), vec![r0, r1]);
    assert_eq!(damage_rects(&vec![None, None]), Vec::<(i32, i32, i32, i32)>::new());
}
