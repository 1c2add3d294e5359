//! Workspace and window data shared by both compositor back ends, and the
//! choice between them.
//!
//! Talking to the compositor's socket is left to the caller: the functions
//! here turn the compositor's replies into workspaces, and a request into
//! the bytes to send.
pub mod hyprland;
pub mod sway;

use vstd::prelude::*;
use vstd::utf8::encode_utf8;

use crate::ipc::sway::{ByteOrder, SwayNode, SwayWorkspace};

verus! {

/// A window as the overview shows it.
#[derive(Debug, Clone)]
pub struct ClientInfo {
    pub class_name: String,
    pub title: String,
    pub address: u64,
    pub workspace_id: i32,
    pub x: i32,
    pub y: i32,
    pub w: i32,
    pub h: i32,
}

/// A workspace with the windows it holds, in the compositor's order.
#[derive(Debug, Clone)]
pub struct WorkspaceInfo {
    pub id: i32,
    pub name: String,
    pub monitor_id: i32,
    pub clients: Vec<ClientInfo>,
}

/// The value a `ClientInfo` stands for.
#[verifier::ext_equal]
pub struct ClientView {
    pub class_name: Seq<char>,
    pub title: Seq<char>,
    pub address: u64,
    pub workspace_id: i32,
    pub x: i32,
    pub y: i32,
    pub w: i32,
    pub h: i32,
}

/// The value a `WorkspaceInfo` stands for.
#[verifier::ext_equal]
pub struct WorkspaceView {
    pub id: i32,
    pub name: Seq<char>,
    pub monitor_id: i32,
    pub clients: Seq<ClientView>,
}

impl View for ClientInfo {
    type V = ClientView;

    open spec fn view(&self) -> ClientView {
        ClientView {
            class_name: self.class_name@,
            title: self.title@,
            address: self.address,
            workspace_id: self.workspace_id,
            x: self.x,
            y: self.y,
            w: self.w,
            h: self.h,
        }
    }
}

impl View for WorkspaceInfo {
    type V = WorkspaceView;

    open spec fn view(&self) -> WorkspaceView {
        WorkspaceView {
            id: self.id,
            name: self.name@,
            monitor_id: self.monitor_id,
            clients: client_views(self.clients@),
        }
    }
}

pub open spec fn client_views(s: Seq<ClientInfo>) -> Seq<ClientView> {
    s.map_values(|c: ClientInfo| c@)
}

pub open spec fn workspace_views(s: Seq<WorkspaceInfo>) -> Seq<WorkspaceView> {
    s.map_values(|w: WorkspaceInfo| w@)
}

/// The window manager the overview talks to.
#[derive(Debug, Clone, Copy, PartialEq, Eq, Structural)]
pub enum Compositor {
    Hyprland,
    Sway,
}

impl Compositor {
    /// Display name of the compositor.
    pub fn name(self) -> (res: &'static str)
        ensures
            res@ == (match self {
                Compositor::Hyprland => "Hyprland"@,
                Compositor::Sway => "Sway"@,
            }),
    {
        match self {
            Compositor::Hyprland => "Hyprland",
            Compositor::Sway => "Sway",
        }
    }
}

/// Which compositor runs, from which of the environment variables
/// `HYPRLAND_INSTANCE_SIGNATURE`, `SWAYSOCK` and `I3SOCK` are set: Hyprland
/// wins, then Sway; with none of them set, Hyprland.
pub fn detect_compositor(hyprland_signature: bool, swaysock: bool, i3sock: bool) -> (res:
    Compositor)
    ensures
        res == (if !hyprland_signature && (swaysock || i3sock) {
            Compositor::Sway
        } else {
            Compositor::Hyprland
        }),
{
    if hyprland_signature {
        Compositor::Hyprland
    } else if swaysock || i3sock {
        Compositor::Sway
    } else {
        Compositor::Hyprland
    }
}


/// The replies that the workspace list is read from.
pub enum WorkspacesReply {
    /// Hyprland's replies to `j/workspaces` and `j/clients`.
    Hyprland { workspaces: String, clients: String },
    /// Sway's decoded `GET_WORKSPACES` reply, and its `GET_TREE` reply when
    /// that could be had.
    Sway { workspaces: Vec<SwayWorkspace>, tree: Option<SwayNode> },
}

/// The reply that the focused workspace is read from.
pub enum ActiveWorkspaceReply {
    /// Hyprland's reply to `j/activeworkspace`.
    Hyprland(String),
    /// Sway's decoded `GET_WORKSPACES` reply.
    Sway(Vec<SwayWorkspace>),
}

/// The reply that the focused window is read from.
pub enum ActiveWindowReply {
    /// Hyprland's reply to `j/activewindow`.
    Hyprland(String),
    /// Sway's `GET_TREE` reply, when that could be had.
    Sway(Option<SwayNode>),
}

/// The workspaces, with their windows, that the replies describe.
pub fn get_workspaces(reply: &WorkspacesReply) -> (res: Vec<WorkspaceInfo>)
    ensures
        workspace_views(res@) == match reply {
            WorkspacesReply::Hyprland { workspaces, clients } => hyprland::workspaces_from(
                workspaces@,
                clients@,
            ),
            WorkspacesReply::Sway { workspaces, tree } => sway::workspaces_from(workspaces@, *tree),
        },
{
    match reply {
        WorkspacesReply::Hyprland { workspaces, clients } => hyprland::get_workspaces(
            workspaces.as_str(),
            clients.as_str(),
        ),
        WorkspacesReply::Sway { workspaces, tree } => sway::get_workspaces(workspaces, tree),
    }
}

/// Name of the currently focused workspace, or empty string if unknown.
pub fn get_active_workspace_name(reply: &ActiveWorkspaceReply) -> (res: String)
    ensures
        res@ == match reply {
            ActiveWorkspaceReply::Hyprland(json) => hyprland::string_field(json@, "name"@),
            ActiveWorkspaceReply::Sway(list) => sway::active_workspace_name(list@),
        },
{
    match reply {
        ActiveWorkspaceReply::Hyprland(json) => hyprland::get_active_workspace_name(json.as_str()),
        ActiveWorkspaceReply::Sway(list) => sway::get_active_workspace_name(list),
    }
}

/// The address (Hyprland) or container id (Sway) of the currently focused
/// window, or 0 if none.
pub fn get_active_window_address(reply: &ActiveWindowReply) -> (res: u64)
    ensures
        res == match reply {
            ActiveWindowReply::Hyprland(json) => hyprland::active_window_address(json@),
            ActiveWindowReply::Sway(tree) => match tree {
                Some(t) => match sway::focused_view(*t) {
                    Some(id) => id,
                    None => 0,
                },
                None => 0,
            },
        },
{
    match reply {
        ActiveWindowReply::Hyprland(json) => hyprland::get_active_window_address(json.as_str()),
        ActiveWindowReply::Sway(tree) => sway::get_active_window_address(tree),
    }
}

/// The bytes to write to the compositor's socket to focus `ws`: Hyprland's
/// dispatch message, or a framed sway command (in byte order `order`).
pub fn switch_workspace(compositor: Compositor, order: ByteOrder, ws: &WorkspaceInfo) -> (res:
    Vec<u8>)
    ensures
        res@ == match compositor {
            Compositor::Hyprland => encode_utf8(hyprland::switch_message(ws.id)),
            Compositor::Sway => sway::message(
                order,
                sway::RUN_COMMAND,
                encode_utf8(sway::switch_command(ws.name@)),
            ),
        },
{
    match compositor {
        Compositor::Hyprland => {
            let m = hyprland::switch_workspace(ws.id);
            m.as_str().as_bytes_vec()
        },
        Compositor::Sway => {
            let c = sway::switch_workspace(ws.name.as_str());
            sway::run_command(order, c.as_str())
        },
    }
}

/// The bytes to write to the compositor's socket to move the window with
/// the given address (Hyprland) or container id (Sway) to `ws`.
pub fn move_window_to_workspace(
    compositor: Compositor,
    order: ByteOrder,
    window_address: u64,
    ws: &WorkspaceInfo,
) -> (res: Vec<u8>)
    ensures
        res@ == match compositor {
            Compositor::Hyprland => encode_utf8(hyprland::move_message(window_address, ws.id)),
            Compositor::Sway => sway::message(
                order,
                sway::RUN_COMMAND,
                encode_utf8(sway::move_command(window_address, ws.name@)),
            ),
        },
{
    match compositor {
        Compositor::Hyprland => {
            let m = hyprland::move_window_to_workspace(window_address, ws.id);
            m.as_str().as_bytes_vec()
        },
        Compositor::Sway => {
            let c = sway::move_window_to_workspace(window_address, ws.name.as_str());
            sway::run_command(order, c.as_str())
        },
    }
}

} // verus!
