use hyprexpose::ipc::hyprland::{
    get_active_window_address, get_active_workspace_name, get_workspaces, json_array_objects,
    json_int, json_string, move_window_to_workspace, parse_address, parse_array_pair,
    switch_workspace,
};

fn chars(s: &str) -> Vec<char> {
    s.chars().collect()
}

fn text(v: Vec<char>) -> String {
    v.into_iter().collect()
}

const WORKSPACES: &str = r#"[{
    "id": 3,
    "name": "code",
    "monitor": "DP-1",
    "monitorID": 1,
    "windows": 1
},{
    "id": -98,
    "name": "special:scratch",
    "monitorID": 0
},{
    "id": 1,
    "name": "1",
    "monitorID": 0,
    "lastwindowtitle": "a {brace} \"quoted\" }"
}]"#;

const CLIENTS: &str = r#"[{
    "address": "0x55d1a2b3c4d0",
    "at": [10, 20],
    "size": [960, 1040],
    "workspace": {
        "id": 1,
        "name": "1"
    },
    "class": "kitty",
    "title": "~"
},{
    "address": "0xff",
    "at": [-5,7],
    "size": [100, 50],
    "workspace": 3,
    "class": "",
    "title": "notes"
},{
    "address": "0x1",
    "at": [0, 0],
    "size": [1, 1],
    "workspace": {"id": -98, "name": "special:scratch"},
    "class": "hidden",
    "title": "h"
}]"#;

#[test]
fn workspaces_sorted_special_skipped_clients_assigned() {
    let ws = get_workspaces(WORKSPACES, CLIENTS);
    assert_eq!(ws.len(), 2);
    assert_eq!(ws[0].id, 1);
    assert_eq!(ws[0].name, "1");
    assert_eq!(ws[0].monitor_id, 0);
    assert_eq!(ws[1].id, 3);
    assert_eq!(ws[1].name, "code");
    assert_eq!(ws[1].monitor_id, 1);

    assert_eq!(ws[0].clients.len(), 1);
    let c = &ws[0].clients[0];
    assert_eq!(c.class_name, "kitty");
    assert_eq!(c.title, "~");
    assert_eq!(c.address, 0x55d1a2b3c4d0);
    assert_eq!(c.workspace_id, 1);
    assert_eq!((c.x, c.y, c.w, c.h), (10, 20, 960, 1040));

    assert_eq!(ws[1].clients.len(), 1);
    let c = &ws[1].clients[0];
    assert_eq!(c.class_name, "");
    assert_eq!(c.title, "notes");
    assert_eq!(c.address, 0xff);
    assert_eq!((c.x, c.y, c.w, c.h), (-5, 7, 100, 50));
}

#[test]
fn equal_ids_keep_reply_order() {
    let ws = get_workspaces(
        r#"[{"id": 2, "name": "b"}, {"id": 1, "name": "a"}, {"id": 2, "name": "c"}]"#,
        r#"[{"workspace": 2, "class": "x"}]"#,
    );
    let names: Vec<&str> = ws.iter().map(|w| w.name.as_str()).collect();
    assert_eq!(names, vec!["a", "b", "c"]);
    assert_eq!(ws[1].clients.len(), 1);
    assert!(ws[2].clients.is_empty());
}

#[test]
fn empty_replies_give_no_workspaces() {
    assert!(get_workspaces("", "").is_empty());
    assert!(get_workspaces("[]", "[]").is_empty());
}

#[test]
fn json_objects_skip_braces_in_strings() {
    let objs = json_array_objects(&chars(r#"[{"a":"}"},{"b":{"c":1}}, {"d":"\"{"}]"#));
    let objs: Vec<String> = objs.into_iter().map(text).collect();
    assert_eq!(objs, vec![r#"{"a":"}"}"#, r#"{"b":{"c":1}}"#, r#"{"d":"\"{"}"#]);
}

#[test]
fn json_string_cases() {
    let j = chars(r#"{"name": 	"web", "empty":"", "num": 5, "open": "abc"#);
    assert_eq!(text(json_string(&j, "name")), "web");
    assert_eq!(text(json_string(&j, "empty")), "");
    assert_eq!(text(json_string(&j, "num")), "");
    assert_eq!(text(json_string(&j, "missing")), "");
    assert_eq!(text(json_string(&j, "open")), "");
}

#[test]
fn json_int_cases() {
    let j = chars(r#"{"a": -42, "b":7x, "c": "3", "d": --1, "e": 99999999999999999999, "f":-9223372036854775808}"#);
    assert_eq!(json_int(&j, "a"), -42);
    assert_eq!(json_int(&j, "b"), 7);
    assert_eq!(json_int(&j, "c"), 0);
    assert_eq!(json_int(&j, "d"), 0);
    assert_eq!(json_int(&j, "e"), 0);
    assert_eq!(json_int(&j, "f"), i64::MIN);
    assert_eq!(json_int(&j, "zzz"), 0);
}

#[test]
fn array_pair_cases() {
    assert_eq!(parse_array_pair(&chars(r#"{"at": [3,	 -4]}"#), "at"), (3, -4));
    assert_eq!(parse_array_pair(&chars(r#"{"at": [3]}"#), "at"), (3, 0));
    assert_eq!(parse_array_pair(&chars(r#"{"at": [ 3, 4]}"#), "at"), (0, 4));
    assert_eq!(parse_array_pair(&chars(r#"{"at": 5}"#), "at"), (0, 0));
    assert_eq!(parse_array_pair(&chars(r#"{"at": [3000000000, 1]}"#), "at"), (0, 1));
}

#[test]
fn address_cases() {
    assert_eq!(parse_address(&chars(r#"{"address": "0xDEADbeef"}"#)), 0xdeadbeef);
    assert_eq!(parse_address(&chars(r#"{"address": "ff"}"#)), 0xff);
    assert_eq!(parse_address(&chars(r#"{"address": "0x"}"#)), 0);
    assert_eq!(parse_address(&chars(r#"{"address": "0xzz"}"#)), 0);
    assert_eq!(parse_address(&chars(r#"{"address": "0x10000000000000000"}"#)), 0);
    assert_eq!(parse_address(&chars(r#"{}"#)), 0);
}

#[test]
fn dispatch_messages() {
    assert_eq!(switch_workspace(4), "/dispatch hl.dsp.focus({ workspace = \"4\" })");
    assert_eq!(switch_workspace(-98), "/dispatch hl.dsp.focus({ workspace = \"-98\" })");
    assert_eq!(
        move_window_to_workspace(0x55d1a2b3c4d0, 2),
        "/dispatch hl.dsp.window.move({ workspace = 2, window = \"address:0x55d1a2b3c4d0\", silent = true })"
    );
    assert_eq!(
        move_window_to_workspace(0, 1),
        "/dispatch hl.dsp.window.move({ workspace = 1, window = \"address:0x0\", silent = true })"
    );
}

#[test]
fn active_window_and_workspace() {
    assert_eq!(get_active_window_address(" {} \n"), 0);
    assert_eq!(get_active_window_address(r#"{"address": "0x2a", "class": "kitty"}"#), 42);
    assert_eq!(get_active_window_address(""), 0);
    assert_eq!(get_active_workspace_name(r#"{"id": 2, "name": "web"}"#), "web");
    assert_eq!(get_active_workspace_name("{}"), "");
}
