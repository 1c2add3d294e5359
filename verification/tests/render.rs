use hyprexpose::ipc::{detect_compositor, ClientInfo, Compositor, WorkspaceInfo};
use hyprexpose::render::{
    class_color_hash, client_label, clients_bounds, find_thumb, workspace_label, Thumbnail,
};

fn thumb(address: u64, width: u32) -> Thumbnail {
    Thumbnail { address, data: vec![0; 4], width, height: 1, stride: 4 }
}

fn ws(id: i32, name: &str) -> WorkspaceInfo {
    WorkspaceInfo { id, name: name.to_string(), monitor_id: 0, clients: Vec::new() }
}

fn client(class: &str, title: &str, x: i32, y: i32, w: i32, h: i32) -> ClientInfo {
    ClientInfo {
        class_name: class.to_string(),
        title: title.to_string(),
        address: 1,
        workspace_id: 1,
        x,
        y,
        w,
        h,
    }
}

#[test]
fn thumbnails_by_address() {
    let t = vec![thumb(0xa, 1), thumb(0xc, 2), thumb(0xa, 3)];
    assert_eq!(find_thumb(&t, 0xa).map(|t| t.width), Some(1));
    assert_eq!(find_thumb(&t, 0xc).map(|t| t.width), Some(2));
    assert!(find_thumb(&t, 0xb).is_none());
    assert!(find_thumb(&[], 0xa).is_none());
}

#[test]
fn colour_hash() {
    assert_eq!(class_color_hash(""), 0);
    assert_eq!(class_color_hash("kitty"), 102059995);
    assert_eq!(class_color_hash("firefox"), 3445514969);
    assert_eq!(class_color_hash("Gnome-calculator"), 2585622287);
}

#[test]
fn labels() {
    assert_eq!(workspace_label(&ws(1, "1")), "1");
    assert_eq!(workspace_label(&ws(2, "web")), "2 web");
    assert_eq!(workspace_label(&ws(-1, "web")), "web");
    assert_eq!(workspace_label(&ws(-1, "")), "-1");
    assert_eq!(workspace_label(&ws(5, "")), "5");
    assert_eq!(client_label(&client("kitty", "~", 0, 0, 1, 1)), "kitty");
    assert_eq!(client_label(&client("", "notes", 0, 0, 1, 1)), "notes");
}

#[test]
fn bounds() {
    let cs = vec![client("a", "", 0, 0, 960, 1080), client("b", "", 960, -10, 960, 1080)];
    assert_eq!(clients_bounds(&cs), (0, -10, 1920, 1080));
    assert_eq!(clients_bounds(&Vec::new()), (i32::MAX, i32::MAX, i32::MIN, i32::MIN));
}

#[test]
fn compositor_names() {
    assert_eq!(Compositor::Hyprland.name(), "Hyprland");
    assert_eq!(Compositor::Sway.name(), "Sway");
    assert_eq!(detect_compositor(true, true, false), Compositor::Hyprland);
    assert_eq!(detect_compositor(false, false, true), Compositor::Sway);
    assert_eq!(detect_compositor(false, false, false), Compositor::Hyprland);
}
