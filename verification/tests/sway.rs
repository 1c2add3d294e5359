use hyprexpose::ipc::sway::native_byte_order;
use hyprexpose::ipc::sway::{
    decode_reply_header, encode_message, get_active_window_address, get_active_workspace_name,
    get_workspaces, move_window_to_workspace, quote, run_command, switch_workspace, ByteOrder,
    SwayNode, SwayRect, SwayWorkspace, WindowProperties, GET_TREE, RUN_COMMAND,
};

fn rect(x: i32, y: i32, width: i32, height: i32) -> SwayRect {
    SwayRect { x, y, width, height }
}

fn node(id: u64, node_type: &str, name: Option<&str>, nodes: Vec<SwayNode>) -> SwayNode {
    SwayNode {
        id,
        node_type: node_type.to_string(),
        name: name.map(|s| s.to_string()),
        app_id: None,
        window_properties: None,
        pid: None,
        rect: rect(0, 0, 1920, 1080),
        focused: false,
        nodes,
        floating_nodes: Vec::new(),
    }
}

fn workspace_entry(num: i32, name: &str, focused: bool) -> SwayWorkspace {
    SwayWorkspace { num, name: name.to_string(), focused }
}

/// Decoded replies of a sway session: three workspaces (one the scratchpad) and a tree.
fn mock_replies() -> (Vec<SwayWorkspace>, SwayNode) {
    let workspaces = vec![
        workspace_entry(1, "1", false),
        workspace_entry(-1, "web", true),
        workspace_entry(-1, "__i3_scratch", false),
    ];
    let mut vim = node(10, "con", Some("vim"), Vec::new());
    vim.app_id = Some("foot".to_string());
    vim.pid = Some(100);
    vim.rect = rect(0, 0, 960, 1080);
    vim.focused = true;
    let mut calc = node(11, "floating_con", Some("calc"), Vec::new());
    calc.pid = Some(101);
    calc.window_properties = Some(WindowProperties { class: Some("Gnome-calculator".to_string()) });
    calc.rect = rect(100, 100, 400, 300);
    let mut ws1 = node(3, "workspace", Some("1"), vec![vim]);
    ws1.floating_nodes = vec![calc];
    let web = node(4, "workspace", Some("web"), Vec::new());
    let output = node(2, "output", Some("eDP-1"), vec![ws1, web]);
    let root = node(1, "root", Some("root"), vec![output]);
    (workspaces, root)
}

#[test]
fn quote_escapes_specials() {
    assert_eq!(quote(r#"a "b" \c"#), r#""a \"b\" \\c""#);
}

#[test]
fn parses_workspaces_and_tree() {
    let (list, tree) = mock_replies();
    let tree = Some(tree);
    let workspaces = get_workspaces(&list, &tree);
    assert_eq!(workspaces.len(), 2, "scratchpad workspace must be skipped");

    assert_eq!(workspaces[0].id, 1);
    assert_eq!(workspaces[0].name, "1");
    assert_eq!(workspaces[0].clients.len(), 2);
    assert_eq!(workspaces[0].clients[0].class_name, "foot");
    assert_eq!(workspaces[0].clients[0].title, "vim");
    assert_eq!(workspaces[0].clients[0].address, 10);
    assert_eq!(workspaces[0].clients[0].workspace_id, 1);
    assert_eq!(workspaces[0].clients[0].w, 960);
    assert_eq!(workspaces[0].clients[1].class_name, "Gnome-calculator");
    assert_eq!(workspaces[0].clients[1].x, 100);
    assert_eq!(workspaces[0].clients[1].h, 300);

    assert_eq!(workspaces[1].name, "web");
    assert_eq!(workspaces[1].id, -1);
    assert!(workspaces[1].clients.is_empty());

    assert_eq!(get_active_window_address(&tree), 10);
    assert_eq!(get_active_workspace_name(&list), "web");
}

#[test]
fn missing_tree_leaves_workspaces_empty() {
    let (list, _) = mock_replies();
    let workspaces = get_workspaces(&list, &None);
    assert_eq!(workspaces.len(), 2);
    assert!(workspaces[0].clients.is_empty());
    assert_eq!(get_active_window_address(&None), 0);
}

#[test]
fn empty_app_id_falls_back_to_class_and_nameless_view_has_empty_title() {
    let mut view = node(20, "con", None, Vec::new());
    view.pid = Some(5);
    view.app_id = Some(String::new());
    view.window_properties = Some(WindowProperties { class: Some("XTerm".to_string()) });
    let ws = node(3, "workspace", Some("1"), vec![view]);
    let root = node(1, "root", None, vec![ws]);
    let list = vec![workspace_entry(1, "1", true)];
    let workspaces = get_workspaces(&list, &Some(root));
    assert_eq!(workspaces[0].clients.len(), 1);
    assert_eq!(workspaces[0].clients[0].class_name, "XTerm");
    assert_eq!(workspaces[0].clients[0].title, "");
}

#[test]
fn no_focused_workspace_gives_empty_name() {
    let list = vec![workspace_entry(1, "1", false), workspace_entry(2, "2", false)];
    assert_eq!(get_active_workspace_name(&list), "");
}

#[test]
fn commands_quote_the_workspace_name() {
    assert_eq!(switch_workspace("web"), "workspace \"web\"");
    assert_eq!(switch_workspace(r#"a"b"#), r#"workspace "a\"b""#);
    assert_eq!(move_window_to_workspace(42, "2: code"), "[con_id=42] move container to workspace \"2: code\"");
}

#[test]
fn message_framing_little_endian() {
    let m = encode_message(ByteOrder::Little, GET_TREE, "ab");
    assert_eq!(m, vec![b'i', b'3', b'-', b'i', b'p', b'c', 2, 0, 0, 0, 4, 0, 0, 0, b'a', b'b']);
    let m = run_command(ByteOrder::Big, "x");
    assert_eq!(m, vec![b'i', b'3', b'-', b'i', b'p', b'c', 0, 0, 0, 1, 0, 0, 0, 0, b'x']);
    assert_eq!(RUN_COMMAND, 0);
}

#[test]
fn header_roundtrip_and_bad_magic() {
    for order in [ByteOrder::Little, ByteOrder::Big] {
        let payload = "é".repeat(300);
        let m = encode_message(order, RUN_COMMAND, &payload);
        assert_eq!(decode_reply_header(order, &m[0..14]), Some(600));
    }
    let mut h = encode_message(ByteOrder::Little, 0, "");
    h[0] = b'x';
    assert_eq!(decode_reply_header(ByteOrder::Little, &h[0..14]), None);
}

#[test]
fn native_order_matches_the_machine() {
    let order = native_byte_order();
    let m = encode_message(order, GET_TREE, "abc");
    assert_eq!(&m[6..10], &3u32.to_ne_bytes());
    assert_eq!(&m[10..14], &GET_TREE.to_ne_bytes());
}

#[test]
fn quoting_round_trip_example() {
    // every `"` and `\` comes out escaped, everything else as is
    assert_eq!(quote(r#"\"#), r#""\\""#);
    assert_eq!(quote(""), r#""""#);
    assert_eq!(quote("ß 1"), "\"ß 1\"");
}
