//! Sway (i3 IPC): framing of requests and replies, the command texts, and
//! reading workspaces and windows out of the `GET_WORKSPACES` and
//! `GET_TREE` replies once they are decoded into the types below.
use vstd::prelude::*;
use vstd::string::StringSliceAdditionalSpecFns;

use crate::ipc::{client_views, workspace_views, ClientInfo, ClientView, WorkspaceInfo, WorkspaceView};
use crate::text::{
    decimal_text, format_unsigned, push_all, string_from_chars, to_chars,
};

verus! {

broadcast use vstd::seq_lib::group_seq_properties;

// ── reply types ─────────────────────────────────────────────────────────────

/// A node's rectangle in layout coordinates.
#[derive(Debug, Clone, Copy)]
pub struct SwayRect {
    pub x: i32,
    pub y: i32,
    pub width: i32,
    pub height: i32,
}

/// One entry of the `GET_WORKSPACES` reply.
#[derive(Debug, Clone)]
pub struct SwayWorkspace {
    pub num: i32,
    pub name: String,
    pub focused: bool,
}

/// X11 properties of an Xwayland window.
#[derive(Debug, Clone)]
pub struct WindowProperties {
    pub class: Option<String>,
}

/// A node of the `GET_TREE` reply: root, output, workspace, container or view.
#[derive(Debug)]
pub struct SwayNode {
    pub id: u64,
    pub node_type: String,
    pub name: Option<String>,
    pub app_id: Option<String>,
    pub window_properties: Option<WindowProperties>,
    pub pid: Option<i32>,
    pub rect: SwayRect,
    pub focused: bool,
    pub nodes: Vec<SwayNode>,
    pub floating_nodes: Vec<SwayNode>,
}

pub open spec fn opt_text(o: Option<String>) -> Seq<char> {
    match o {
        Some(s) => s@,
        None => Seq::empty(),
    }
}

impl SwayNode {
    /// Views (actual windows) are the only tree nodes carrying a pid.
    pub open spec fn is_view_spec(&self) -> bool {
        self.pid is Some
    }

    /// Whether the node is a view (a window).
    #[verifier::when_used_as_spec(is_view_spec)]
    pub fn is_view(&self) -> (res: bool)
        ensures
            res == self.is_view_spec(),
    {
        self.pid.is_some()
    }

    /// The children in tree order: tiled nodes, then floating ones.
    pub open spec fn children_spec(self) -> Seq<SwayNode> {
        self.nodes@ + self.floating_nodes@
    }

    /// The children in tree order: tiled nodes, then floating ones.
    pub fn children(&self) -> (res: Vec<&SwayNode>)
        ensures
            res@.len() == self.children_spec().len(),
            forall|i: int| 0 <= i < res@.len() ==> *(#[trigger] res@[i]) == self.children_spec()[i],
    {
        let mut res: Vec<&SwayNode> = Vec::new();
        let mut i: usize = 0;
        while i < self.nodes.len()
            invariant
                i <= self.nodes@.len(),
                res@.len() == i,
                forall|j: int| 0 <= j < i ==> *(#[trigger] res@[j]) == self.nodes@[j],
            decreases self.nodes@.len() - i,
        {
            res.push(&self.nodes[i]);
            i = i + 1;
        }
        let mut j: usize = 0;
        while j < self.floating_nodes.len()
            invariant
                j <= self.floating_nodes@.len(),
                res@.len() == self.nodes@.len() + j,
                forall|k: int| 0 <= k < self.nodes@.len() ==> *(#[trigger] res@[k]) == self.nodes@[k],
                forall|k: int|
                    0 <= k < j ==> *(#[trigger] res@[self.nodes@.len() + k])
                        == self.floating_nodes@[k],
            decreases self.floating_nodes@.len() - j,
        {
            res.push(&self.floating_nodes[j]);
            j = j + 1;
        }
        assert forall|i: int| 0 <= i < res@.len() implies *(#[trigger] res@[i])
            == self.children_spec()[i] by {
            if i >= self.nodes@.len() {
                let k = i - self.nodes@.len();
                assert(res@[self.nodes@.len() + k] == res@[i]);
            }
        }
        res
    }
}

// ── windows of a tree ───────────────────────────────────────────────────────

/// A view's class: its Wayland `app_id` when that is set and not empty,
/// else its X11 class, else empty.
pub open spec fn class_of(n: SwayNode) -> Seq<char> {
    match n.app_id {
        Some(a) if a@.len() > 0 => a@,
        _ => match n.window_properties {
            Some(p) => opt_text(p.class),
            None => Seq::empty(),
        },
    }
}

/// The window that a view node stands for, placed on workspace `ws_id`.
pub open spec fn client_of_node(n: SwayNode, ws_id: i32) -> ClientView {
    ClientView {
        class_name: class_of(n),
        title: opt_text(n.name),
        address: n.id,
        workspace_id: ws_id,
        x: n.rect.x,
        y: n.rect.y,
        w: n.rect.width,
        h: n.rect.height,
    }
}

/// All views in the subtree of `n`, in depth-first order (a node before
/// its children, tiled children before floating ones).
pub open spec fn views(n: SwayNode, ws_id: i32) -> Seq<ClientView>
    decreases n,
{
    (if n.pid is Some {
        seq![client_of_node(n, ws_id)]
    } else {
        Seq::empty()
    }) + views_seq(n.nodes@, ws_id) + views_seq(n.floating_nodes@, ws_id)
}

/// All views in the subtrees of the nodes of `s`, in order.
pub open spec fn views_seq(s: Seq<SwayNode>, ws_id: i32) -> Seq<ClientView>
    decreases s,
{
    if s.len() == 0 {
        Seq::empty()
    } else {
        views_seq(s.drop_last(), ws_id) + views(s.last(), ws_id)
    }
}

fn text_or_empty(o: &Option<String>) -> (res: String)
    ensures
        res@ == opt_text(*o),
{
    match o {
        Some(s) => s.clone(),
        None => String::new(),
    }
}

fn class_name_of(node: &SwayNode) -> (res: String)
    ensures
        res@ == class_of(*node),
{
    match &node.app_id {
        Some(a) => {
            if !a.as_str().is_empty() {
                return a.clone();
            }
        },
        None => {},
    }
    match &node.window_properties {
        Some(p) => text_or_empty(&p.class),
        None => String::new(),
    }
}

/// Appends every view of the subtree of `node` to `out`, on workspace
/// `workspace_id`.
pub fn collect_views(node: &SwayNode, workspace_id: i32, out: &mut Vec<ClientInfo>)
    ensures
        client_views(final(out)@) == client_views(old(out)@) + views(*node, workspace_id),
    decreases node,
{
    let ghost start = client_views(out@);
    let ghost own = if node.pid is Some {
        seq![client_of_node(*node, workspace_id)]
    } else {
        Seq::empty()
    };
    if node.is_view() {
        let c = ClientInfo {
            class_name: class_name_of(node),
            title: text_or_empty(&node.name),
            address: node.id,
            workspace_id,
            x: node.rect.x,
            y: node.rect.y,
            w: node.rect.width,
            h: node.rect.height,
        };
        out.push(c);
    }
    assert(client_views(out@) =~= start + own);
    let mut i: usize = 0;
    while i < node.nodes.len()
        invariant
            i <= node.nodes@.len(),
            client_views(out@) =~= start + own + views_seq(node.nodes@.take(i as int), workspace_id),
        decreases node.nodes@.len() - i,
    {
        proof {
            assert(decreases_to!(*node => node.nodes@[i as int]));
        }
        collect_views(&node.nodes[i], workspace_id, out);
        assert(node.nodes@.take(i + 1).drop_last() =~= node.nodes@.take(i as int));
        i = i + 1;
    }
    assert(node.nodes@.take(i as int) =~= node.nodes@);
    let mut j: usize = 0;
    while j < node.floating_nodes.len()
        invariant
            j <= node.floating_nodes@.len(),
            client_views(out@) =~= start + own + views_seq(node.nodes@, workspace_id) + views_seq(
                node.floating_nodes@.take(j as int),
                workspace_id,
            ),
        decreases node.floating_nodes@.len() - j,
    {
        proof {
            assert(decreases_to!(*node => node.floating_nodes@[j as int]));
        }
        collect_views(&node.floating_nodes[j], workspace_id, out);
        assert(node.floating_nodes@.take(j + 1).drop_last() =~= node.floating_nodes@.take(
            j as int,
        ));
        j = j + 1;
    }
    assert(node.floating_nodes@.take(j as int) =~= node.floating_nodes@);
}


// ── filling workspaces from the tree ───────────────────────────────────────

/// Index of the first workspace at or after `i` with the given name.
pub open spec fn first_named_from(ws: Seq<WorkspaceView>, name: Seq<char>, i: int) -> Option<int>
    decreases ws.len() - i,
{
    if i >= ws.len() || i < 0 {
        None
    } else if ws[i].name == name {
        Some(i)
    } else {
        first_named_from(ws, name, i + 1)
    }
}

/// `ws` with the views under every workspace node of the subtree of `n`
/// appended to the first workspace of the same name: a workspace node is
/// not searched further; a nameless one, or one that names no listed
/// workspace, adds nothing.
pub open spec fn fill(ws: Seq<WorkspaceView>, n: SwayNode) -> Seq<WorkspaceView>
    decreases n,
{
    if n.node_type@ == "workspace"@ {
        match n.name {
            None => ws,
            Some(name) => match first_named_from(ws, name@, 0) {
                Some(k) => ws.update(
                    k,
                    WorkspaceView {
                        clients: ws[k].clients + views_seq(n.nodes@, ws[k].id) + views_seq(
                            n.floating_nodes@,
                            ws[k].id,
                        ),
                        ..ws[k]
                    },
                ),
                None => ws,
            },
        }
    } else {
        fill_seq(fill_seq(ws, n.nodes@), n.floating_nodes@)
    }
}

/// `fill` applied for each node of `s`, in order.
pub open spec fn fill_seq(ws: Seq<WorkspaceView>, s: Seq<SwayNode>) -> Seq<WorkspaceView>
    decreases s,
{
    if s.len() == 0 {
        ws
    } else {
        fill(fill_seq(ws, s.drop_last()), s.last())
    }
}

fn find_named(ws: &Vec<WorkspaceInfo>, name: &String) -> (res: Option<usize>)
    ensures
        match res {
            Some(k) => k < ws@.len() && first_named_from(workspace_views(ws@), name@, 0) == Some(
                k as int,
            ),
            None => first_named_from(workspace_views(ws@), name@, 0) is None,
        },
{
    let ghost s = workspace_views(ws@);
    let mut k: usize = 0;
    while k < ws.len()
        invariant
            k <= ws@.len(),
            s == workspace_views(ws@),
            first_named_from(s, name@, k as int) == first_named_from(s, name@, 0),
        decreases ws@.len() - k,
    {
        if ws[k].name == *name {
            return Some(k);
        }
        k = k + 1;
    }
    None
}

/// Appends the views under the workspace nodes of the subtree of `node`
/// to the workspaces of the same name, as `fill` says.
pub fn fill_workspace_clients(node: &SwayNode, workspaces: &mut Vec<WorkspaceInfo>)
    ensures
        workspace_views(final(workspaces)@) == fill(workspace_views(old(workspaces)@), *node),
    decreases node,
{
    let ws_type = "workspace".to_owned();
    if node.node_type == ws_type {
        let name = match &node.name {
            Some(n) => n,
            None => {
                return;
            },
        };
        match find_named(workspaces, name) {
            Some(k) => {
                let ghost before = workspace_views(workspaces@);
                let ghost old_ws = workspaces@;
                let id = workspaces[k].id;
                let children = node.children();
                let mut i: usize = 0;
                while i < children.len()
                    invariant
                        i <= children@.len(),
                        k < workspaces@.len(),
                        workspaces@.len() == old_ws.len(),
                        before == workspace_views(old_ws),
                        id == old_ws[k as int].id,
                        children@.len() == node.children_spec().len(),
                        forall|j: int| 0 <= j < children@.len() ==> *(#[trigger] children@[j])
                            == node.children_spec()[j],
                        forall|j: int| 0 <= j < old_ws.len() && j != k ==> workspaces@[j] == old_ws[j],
                        workspaces@[k as int].id == old_ws[k as int].id,
                        workspaces@[k as int].name == old_ws[k as int].name,
                        workspaces@[k as int].monitor_id == old_ws[k as int].monitor_id,
                        client_views(workspaces@[k as int].clients@) =~= client_views(
                            old_ws[k as int].clients@,
                        ) + views_seq(node.children_spec().take(i as int), id),
                    decreases children@.len() - i,
                {
                    proof {
                        let c = node.children_spec()[i as int];
                        if i < node.nodes@.len() {
                            assert(c == node.nodes@[i as int]);
                            assert(decreases_to!(*node => node.nodes@[i as int]));
                        } else {
                            assert(c == node.floating_nodes@[i - node.nodes@.len()]);
                            assert(decreases_to!(*node => node.floating_nodes@[i - node.nodes@.len()]));
                        }
                    }
                    let child: &SwayNode = children[i];
                    collect_views(child, id, &mut workspaces[k].clients);
                    assert(node.children_spec().take(i + 1).drop_last() =~= node.children_spec().take(
                        i as int,
                    ));
                    i = i + 1;
                }
                assert(node.children_spec().take(i as int) =~= node.children_spec());
                proof {
                    lemma_views_seq_add(node.nodes@, node.floating_nodes@, id);
                    assert forall|j: int| 0 <= j < before.len() implies (#[trigger] workspace_views(
                        workspaces@,
                    )[j]) =~= fill(before, *node)[j] by {
                        if j == k {
                            assert(workspace_views(workspaces@)[j].clients =~= before[j].clients
                                + views_seq(node.nodes@, id) + views_seq(node.floating_nodes@, id));
                        } else {
                            assert(workspaces@[j] == old_ws[j]);
                        }
                    }
                    assert(workspace_views(workspaces@) =~= fill(before, *node));
                }
            },
            None => {},
        }
        return;
    }
    let mut i: usize = 0;
    let ghost start = workspace_views(workspaces@);
    while i < node.nodes.len()
        invariant
            i <= node.nodes@.len(),
            workspace_views(workspaces@) == fill_seq(start, node.nodes@.take(i as int)),
        decreases node.nodes@.len() - i,
    {
        proof {
            assert(decreases_to!(*node => node.nodes@[i as int]));
        }
        fill_workspace_clients(&node.nodes[i], workspaces);
        assert(node.nodes@.take(i + 1).drop_last() =~= node.nodes@.take(i as int));
        i = i + 1;
    }
    assert(node.nodes@.take(i as int) =~= node.nodes@);
    let ghost mid = workspace_views(workspaces@);
    let mut j: usize = 0;
    while j < node.floating_nodes.len()
        invariant
            j <= node.floating_nodes@.len(),
            workspace_views(workspaces@) == fill_seq(mid, node.floating_nodes@.take(j as int)),
        decreases node.floating_nodes@.len() - j,
    {
        proof {
            assert(decreases_to!(*node => node.floating_nodes@[j as int]));
        }
        fill_workspace_clients(&node.floating_nodes[j], workspaces);
        assert(node.floating_nodes@.take(j + 1).drop_last() =~= node.floating_nodes@.take(
            j as int,
        ));
        j = j + 1;
    }
    assert(node.floating_nodes@.take(j as int) =~= node.floating_nodes@);
}

/// The views of a concatenation are the views of each part, in order.
pub proof fn lemma_views_seq_add(a: Seq<SwayNode>, b: Seq<SwayNode>, ws_id: i32)
    ensures
        views_seq(a + b, ws_id) == views_seq(a, ws_id) + views_seq(b, ws_id),
    decreases b.len(),
{
    if b.len() == 0 {
        assert(a + b =~= a);
        assert(views_seq(a, ws_id) + views_seq(b, ws_id) =~= views_seq(a, ws_id));
    } else {
        lemma_views_seq_add(a, b.drop_last(), ws_id);
        assert((a + b).drop_last() =~= a + b.drop_last());
        assert((a + b).last() == b.last());
        assert(views_seq(a + b, ws_id) =~= views_seq(a, ws_id) + views_seq(b, ws_id));
    }
}

// ── positions in the tree ──────────────────────────────────────────────────

/// The `i`-th child of `n` in tree order: tiled children, then floating ones.
pub open spec fn child(n: SwayNode, i: int) -> SwayNode {
    if i < n.nodes@.len() {
        n.nodes@[i]
    } else {
        n.floating_nodes@[i - n.nodes@.len()]
    }
}

pub open spec fn child_count(n: SwayNode) -> int {
    (n.nodes@.len() + n.floating_nodes@.len()) as int
}

/// The node reached from `n` by following `path`, each step the index of a
/// child in tree order; `None` when a step leaves the tree.
pub open spec fn node_at(n: SwayNode, path: Seq<int>) -> Option<SwayNode>
    decreases path.len(),
{
    if path.len() == 0 {
        Some(n)
    } else if 0 <= path[0] < child_count(n) {
        node_at(child(n, path[0]), path.drop_first())
    } else {
        None
    }
}

/// A window (a node with a pid) that has keyboard focus.
pub open spec fn is_focused_view(v: SwayNode) -> bool {
    v.focused && v.pid is Some
}

/// Following `path` from `n` leads to a focused window with id `x`.
pub open spec fn focused_at(n: SwayNode, path: Seq<int>, x: u64) -> bool {
    match node_at(n, path) {
        Some(v) => is_focused_view(v) && v.id == x,
        None => false,
    }
}

proof fn lemma_views_seq_contains(s: Seq<SwayNode>, i: int, x: ClientView, ws_id: i32)
    requires
        0 <= i < s.len(),
        views(s[i], ws_id).contains(x),
    ensures
        views_seq(s, ws_id).contains(x),
    decreases s.len(),
{
    let a = views_seq(s.drop_last(), ws_id);
    let b = views(s.last(), ws_id);
    if i == s.len() - 1 {
        let j = choose|j: int| 0 <= j < b.len() && b[j] == x;
        assert((a + b)[a.len() + j] == x);
    } else {
        assert(s.drop_last()[i] == s[i]);
        lemma_views_seq_contains(s.drop_last(), i, x, ws_id);
        let j = choose|j: int| 0 <= j < a.len() && a[j] == x;
        assert((a + b)[j] == x);
    }
}

/// The views of the children of `n` hold those of each child.
proof fn lemma_child_views(n: SwayNode, i: int, x: ClientView, ws_id: i32)
    requires
        0 <= i < child_count(n),
        views(child(n, i), ws_id).contains(x),
    ensures
        (views_seq(n.nodes@, ws_id) + views_seq(n.floating_nodes@, ws_id)).contains(x),
{
    let a = views_seq(n.nodes@, ws_id);
    let b = views_seq(n.floating_nodes@, ws_id);
    if i < n.nodes@.len() {
        lemma_views_seq_contains(n.nodes@, i, x, ws_id);
        let j = choose|j: int| 0 <= j < a.len() && a[j] == x;
        assert((a + b)[j] == x);
    } else {
        lemma_views_seq_contains(n.floating_nodes@, i - n.nodes@.len(), x, ws_id);
        let j = choose|j: int| 0 <= j < b.len() && b[j] == x;
        assert((a + b)[a.len() + j] == x);
    }
}

/// Every window anywhere below a node, however deeply it is nested in
/// containers, is among the windows collected from that node.
pub proof fn lemma_views_reach_every_window(n: SwayNode, path: Seq<int>, ws_id: i32)
    requires
        node_at(n, path) matches Some(v) && v.pid is Some,
    ensures
        views(n, ws_id).contains(client_of_node(node_at(n, path)->0, ws_id)),
    decreases path.len(),
{
    let x = client_of_node(node_at(n, path)->0, ws_id);
    let own = if n.pid is Some {
        seq![client_of_node(n, ws_id)]
    } else {
        Seq::<ClientView>::empty()
    };
    let rest = views_seq(n.nodes@, ws_id) + views_seq(n.floating_nodes@, ws_id);
    assert(views(n, ws_id) =~= own + rest);
    if path.len() == 0 {
        assert(views(n, ws_id)[0] == x);
    } else {
        let c = child(n, path[0]);
        lemma_views_reach_every_window(c, path.drop_first(), ws_id);
        lemma_child_views(n, path[0], x, ws_id);
        let j = choose|j: int| 0 <= j < rest.len() && rest[j] == x;
        assert((own + rest)[own.len() + j] == x);
    }
}

// ── focused window ──────────────────────────────────────────────────────────

/// The id of the first focused view in the subtree of `n`, depth first.
pub open spec fn focused_view(n: SwayNode) -> Option<u64>
    decreases n,
{
    if n.focused && n.pid is Some {
        Some(n.id)
    } else {
        match focused_view_seq(n.nodes@) {
            Some(id) => Some(id),
            None => focused_view_seq(n.floating_nodes@),
        }
    }
}

/// The first `focused_view` among the subtrees of `s`, in order.
pub open spec fn focused_view_seq(s: Seq<SwayNode>) -> Option<u64>
    decreases s,
{
    if s.len() == 0 {
        None
    } else {
        match focused_view_seq(s.drop_last()) {
            Some(id) => Some(id),
            None => focused_view(s.last()),
        }
    }
}

/// The id of the first focused view in the subtree of `node`, if any.
pub fn find_focused_view(node: &SwayNode) -> (res: Option<u64>)
    ensures
        res == focused_view(*node),
    decreases node,
{
    if node.focused && node.is_view() {
        return Some(node.id);
    }
    let mut i: usize = 0;
    while i < node.nodes.len()
        invariant
            i <= node.nodes@.len(),
            !(node.focused && node.pid is Some),
            focused_view_seq(node.nodes@.take(i as int)) is None,
        decreases node.nodes@.len() - i,
    {
        proof {
            assert(decreases_to!(*node => node.nodes@[i as int]));
        }
        let r = find_focused_view(&node.nodes[i]);
        assert(node.nodes@.take(i + 1).drop_last() =~= node.nodes@.take(i as int));
        assert(node.nodes@.take(i + 1).last() == node.nodes@[i as int]);
        if r.is_some() {
            proof {
                lemma_focused_view_seq_prefix(node.nodes@, i as int + 1);
            }
            return r;
        }
        i = i + 1;
    }
    assert(node.nodes@.take(i as int) =~= node.nodes@);
    let mut j: usize = 0;
    while j < node.floating_nodes.len()
        invariant
            j <= node.floating_nodes@.len(),
            !(node.focused && node.pid is Some),
            focused_view_seq(node.nodes@) is None,
            focused_view_seq(node.floating_nodes@.take(j as int)) is None,
        decreases node.floating_nodes@.len() - j,
    {
        proof {
            assert(decreases_to!(*node => node.floating_nodes@[j as int]));
        }
        let r = find_focused_view(&node.floating_nodes[j]);
        assert(node.floating_nodes@.take(j + 1).drop_last() =~= node.floating_nodes@.take(
            j as int,
        ));
        assert(node.floating_nodes@.take(j + 1).last() == node.floating_nodes@[j as int]);
        if r.is_some() {
            proof {
                lemma_focused_view_seq_prefix(node.floating_nodes@, j as int + 1);
            }
            return r;
        }
        j = j + 1;
    }
    assert(node.floating_nodes@.take(j as int) =~= node.floating_nodes@);
    None
}

/// Once a prefix holds a focused view, the whole sequence gives that one.
proof fn lemma_focused_view_seq_prefix(s: Seq<SwayNode>, k: int)
    requires
        0 <= k <= s.len(),
        focused_view_seq(s.take(k)) is Some,
    ensures
        focused_view_seq(s) == focused_view_seq(s.take(k)),
    decreases s.len() - k,
{
    if k < s.len() {
        assert(s.take(k + 1).drop_last() =~= s.take(k));
        lemma_focused_view_seq_prefix(s, k + 1);
    } else {
        assert(s.take(k) =~= s);
    }
}

/// The id of the focused window in the tree, or 0 when there is no tree or
/// no focused view.
pub fn get_active_window_address(tree: &Option<SwayNode>) -> (res: u64)
    ensures
        res == (match tree {
            Some(t) => match focused_view(*t) {
                Some(id) => id,
                None => 0,
            },
            None => 0,
        }),
{
    match tree {
        Some(t) => match find_focused_view(t) {
            Some(id) => id,
            None => 0,
        },
        None => 0,
    }
}

proof fn lemma_focused_seq_complete(s: Seq<SwayNode>, i: int)
    requires
        0 <= i < s.len(),
        focused_view(s[i]) is Some,
    ensures
        focused_view_seq(s) is Some,
    decreases s.len(),
{
    if i < s.len() - 1 {
        assert(s.drop_last()[i] == s[i]);
        lemma_focused_seq_complete(s.drop_last(), i);
    }
}

/// If a focused window sits anywhere below `n`, tiled or floating, a
/// focused window is found.
pub proof fn lemma_focused_view_complete(n: SwayNode, path: Seq<int>)
    requires
        node_at(n, path) matches Some(v) && is_focused_view(v),
    ensures
        focused_view(n) is Some,
    decreases path.len(),
{
    if path.len() > 0 && !is_focused_view(n) {
        let i = path[0];
        lemma_focused_view_complete(child(n, i), path.drop_first());
        if i < n.nodes@.len() {
            lemma_focused_seq_complete(n.nodes@, i);
        } else {
            lemma_focused_seq_complete(n.floating_nodes@, i - n.nodes@.len());
        }
    }
}

/// What is found is the id of a focused window below `n`.
pub proof fn lemma_focused_view_sound(n: SwayNode)
    ensures
        focused_view(n) matches Some(x) ==> exists|p: Seq<int>| #[trigger] focused_at(n, p, x),
    decreases n,
{
    if let Some(x) = focused_view(n) {
        if is_focused_view(n) {
            assert(node_at(n, Seq::<int>::empty()) == Some(n));
            assert(focused_at(n, Seq::<int>::empty(), x));
        } else {
            match focused_view_seq(n.nodes@) {
                Some(y) => {
                    lemma_focused_seq_sound(n.nodes@);
                    let (i, q) = choose|i: int, q: Seq<int>|
                        0 <= i < n.nodes@.len() && #[trigger] focused_at(n.nodes@[i], q, y);
                    let p = seq![i] + q;
                    assert(p.drop_first() =~= q);
                    assert(child(n, i) == n.nodes@[i]);
                    assert(node_at(n, p) == node_at(n.nodes@[i], q));
                    assert(focused_at(n, p, x));
                },
                None => {
                    lemma_focused_seq_sound(n.floating_nodes@);
                    let (i, q) = choose|i: int, q: Seq<int>|
                        0 <= i < n.floating_nodes@.len() && #[trigger] focused_at(
                            n.floating_nodes@[i],
                            q,
                            x,
                        );
                    let p = seq![n.nodes@.len() + i] + q;
                    assert(p.drop_first() =~= q);
                    assert(child(n, n.nodes@.len() + i) == n.floating_nodes@[i]);
                    assert(node_at(n, p) == node_at(n.floating_nodes@[i], q));
                    assert(focused_at(n, p, x));
                },
            }
        }
    }
}

proof fn lemma_focused_seq_sound(s: Seq<SwayNode>)
    ensures
        focused_view_seq(s) matches Some(x) ==> exists|i: int, q: Seq<int>|
            0 <= i < s.len() && #[trigger] focused_at(s[i], q, x),
    decreases s,
{
    if s.len() > 0 {
        if let Some(x) = focused_view_seq(s) {
            match focused_view_seq(s.drop_last()) {
                Some(y) => {
                    lemma_focused_seq_sound(s.drop_last());
                    let (i, q) = choose|i: int, q: Seq<int>|
                        0 <= i < s.drop_last().len() && #[trigger] focused_at(s.drop_last()[i], q, y);
                    assert(s.drop_last()[i] == s[i]);
                    assert(focused_at(s[i], q, x));
                },
                None => {
                    lemma_focused_view_sound(s.last());
                    let q = choose|q: Seq<int>| #[trigger] focused_at(s.last(), q, x);
                    assert(s[s.len() - 1] == s.last());
                    assert(focused_at(s[s.len() - 1], q, x));
                },
            }
        }
    }
}

/// When exactly one focused window sits below `n` (tiled or floating, at
/// any depth), the focused window found is that one.
pub proof fn lemma_single_focused_view_found(n: SwayNode, path: Seq<int>)
    requires
        node_at(n, path) matches Some(v) && is_focused_view(v),
        forall|q: Seq<int>|
            (#[trigger] node_at(n, q) matches Some(w) && is_focused_view(w)) ==> q == path,
    ensures
        focused_view(n) == Some(node_at(n, path)->0.id),
{
    lemma_focused_view_complete(n, path);
    lemma_focused_view_sound(n);
    let x = focused_view(n)->0;
    let q = choose|q: Seq<int>| #[trigger] focused_at(n, q, x);
    assert(q == path);
}

/// The windows of a workspace node of the tree, filled into the first
/// listed workspace of its name, include every window below it, however
/// deeply it is nested in containers.
pub proof fn lemma_fill_reaches_every_window(ws: Seq<WorkspaceView>, n: SwayNode, path: Seq<int>)
    requires
        n.node_type@ == "workspace"@,
        n.name is Some,
        first_named_from(ws, n.name->0@, 0) is Some,
        path.len() > 0,
        node_at(n, path) matches Some(v) && v.pid is Some,
    ensures
        ({
            let k = first_named_from(ws, n.name->0@, 0)->0;
            fill(ws, n)[k].clients.contains(client_of_node(node_at(n, path)->0, ws[k].id))
        }),
{
    let k = first_named_from(ws, n.name->0@, 0)->0;
    lemma_first_named_from(ws, n.name->0@, 0);
    let id = ws[k].id;
    let x = client_of_node(node_at(n, path)->0, id);
    lemma_views_reach_every_window(child(n, path[0]), path.drop_first(), id);
    lemma_child_views(n, path[0], x, id);
    let rest = views_seq(n.nodes@, id) + views_seq(n.floating_nodes@, id);
    let j = choose|j: int| 0 <= j < rest.len() && rest[j] == x;
    assert(fill(ws, n)[k].clients =~= ws[k].clients + rest);
    assert((ws[k].clients + rest)[ws[k].clients.len() + j] == x);
}

// ── workspaces ──────────────────────────────────────────────────────────────

/// Internal workspaces such as `__i3_scratch` start with two underscores.
pub open spec fn is_internal(name: Seq<char>) -> bool {
    name.len() >= 2 && name[0] == '_' && name[1] == '_'
}

pub open spec fn workspace_of_entry(w: SwayWorkspace) -> WorkspaceView {
    WorkspaceView { id: w.num, name: w.name@, monitor_id: 0, clients: Seq::empty() }
}

/// The workspaces of a `GET_WORKSPACES` reply, in sway's order, internal
/// ones left out, without clients.
pub open spec fn listed_workspaces(ws_list: Seq<SwayWorkspace>) -> Seq<WorkspaceView> {
    ws_list.filter(|w: SwayWorkspace| !is_internal(w.name@)).map_values(
        |w: SwayWorkspace| workspace_of_entry(w),
    )
}

/// What `get_workspaces` makes of the two replies.
pub open spec fn workspaces_from(ws_list: Seq<SwayWorkspace>, tree: Option<SwayNode>) -> Seq<
    WorkspaceView,
> {
    match tree {
        Some(t) => fill(listed_workspaces(ws_list), t),
        None => listed_workspaces(ws_list),
    }
}

fn is_internal_name(name: &String) -> (res: bool)
    ensures
        res == is_internal(name@),
{
    let cs = to_chars(name.as_str());
    cs.len() >= 2 && cs[0] == '_' && cs[1] == '_'
}

/// The workspaces and their windows, from the decoded `GET_WORKSPACES`
/// reply and `GET_TREE` reply (`None` when the tree could not be had).
pub fn get_workspaces(ws_list: &Vec<SwayWorkspace>, tree: &Option<SwayNode>) -> (res: Vec<
    WorkspaceInfo,
>)
    ensures
        workspace_views(res@) == workspaces_from(ws_list@, *tree),
{
    let ghost keep = |w: SwayWorkspace| !is_internal(w.name@);
    let ghost f = |w: SwayWorkspace| workspace_of_entry(w);
    let mut workspaces: Vec<WorkspaceInfo> = Vec::new();
    let mut i: usize = 0;
    while i < ws_list.len()
        invariant
            i <= ws_list@.len(),
            keep == (|w: SwayWorkspace| !is_internal(w.name@)),
            f == (|w: SwayWorkspace| workspace_of_entry(w)),
            workspace_views(workspaces@) =~= ws_list@.take(i as int).filter(keep).map_values(f),
        decreases ws_list@.len() - i,
    {
        let w = &ws_list[i];
        assert(ws_list@.take(i + 1) =~= ws_list@.take(i as int).push(*w));
        proof {
            ws_list@.take(i as int).lemma_filter_push(*w, keep);
        }
        if !is_internal_name(&w.name) {
            let info = WorkspaceInfo {
                id: w.num,
                name: w.name.clone(),
                monitor_id: 0,
                clients: Vec::new(),
            };
            assert(info@ =~= workspace_of_entry(*w));
            let ghost prev = workspace_views(workspaces@);
            workspaces.push(info);
            assert(workspace_views(workspaces@) =~= prev.push(f(*w)));
            assert(ws_list@.take(i as int).filter(keep).push(*w).map_values(f) =~= ws_list@.take(
                i as int,
            ).filter(keep).map_values(f).push(f(*w)));
        }
        i = i + 1;
    }
    assert(ws_list@.take(i as int) =~= ws_list@);
    match tree {
        Some(t) => fill_workspace_clients(t, &mut workspaces),
        None => {},
    }
    workspaces
}

/// Sway's workspaces keep sway's order and leave out the internal ones
/// (such as the scratchpad `__i3_scratch`); the tree only adds windows.
pub proof fn lemma_sway_workspaces(ws_list: Seq<SwayWorkspace>, tree: Option<SwayNode>)
    ensures
        workspaces_from(ws_list, tree).len() == listed_workspaces(ws_list).len(),
        forall|k: int|
            0 <= k < workspaces_from(ws_list, tree).len() ==> {
                let w = #[trigger] workspaces_from(ws_list, tree)[k];
                &&& !is_internal(w.name)
                &&& w.id == listed_workspaces(ws_list)[k].id
                &&& w.name == listed_workspaces(ws_list)[k].name
                &&& w.clients.take(listed_workspaces(ws_list)[k].clients.len() as int)
                    == listed_workspaces(ws_list)[k].clients
            },
{
    let keep = |w: SwayWorkspace| !is_internal(w.name@);
    let listed = listed_workspaces(ws_list);
    assert forall|k: int| 0 <= k < listed.len() implies !is_internal((#[trigger] listed[k]).name) by {
        ws_list.lemma_filter_pred(keep, k);
    }
    match tree {
        Some(t) => {
            lemma_fill_keeps(listed, t);
        },
        None => {
            assert forall|k: int| 0 <= k < listed.len() implies (#[trigger] listed[k]).clients.take(
                listed[k].clients.len() as int,
            ) == listed[k].clients by {
                assert(listed[k].clients.take(listed[k].clients.len() as int) =~= listed[k].clients);
            }
        },
    }
}

/// Filling from the tree keeps the workspaces, their ids and names, and only
/// appends to their windows.
proof fn lemma_first_named_from(ws: Seq<WorkspaceView>, name: Seq<char>, i: int)
    requires
        0 <= i,
    ensures
        match first_named_from(ws, name, i) {
            Some(k) => i <= k < ws.len() && ws[k].name == name,
            None => forall|j: int| i <= j < ws.len() ==> (#[trigger] ws[j]).name != name,
        },
    decreases ws.len() - i,
{
    if i < ws.len() && ws[i].name != name {
        lemma_first_named_from(ws, name, i + 1);
    }
}

pub proof fn lemma_fill_keeps(ws: Seq<WorkspaceView>, n: SwayNode)
    ensures
        fill(ws, n).len() == ws.len(),
        forall|k: int|
            0 <= k < ws.len() ==> {
                let w = #[trigger] fill(ws, n)[k];
                &&& w.id == ws[k].id
                &&& w.name == ws[k].name
                &&& ws[k].clients.len() <= w.clients.len()
                &&& w.clients.take(ws[k].clients.len() as int) == ws[k].clients
            },
    decreases n,
{
    if n.node_type@ == "workspace"@ {
        if let Some(name) = n.name {
            lemma_first_named_from(ws, name@, 0);
        }
        assert forall|k: int| 0 <= k < ws.len() implies ({
            let w = #[trigger] fill(ws, n)[k];
            &&& w.id == ws[k].id
            &&& w.name == ws[k].name
            &&& ws[k].clients.len() <= w.clients.len()
            &&& w.clients.take(ws[k].clients.len() as int) == ws[k].clients
        }) by {
            match n.name {
                None => {
                    assert(ws[k].clients.take(ws[k].clients.len() as int) =~= ws[k].clients);
                },
                Some(name) => match first_named_from(ws, name@, 0) {
                    Some(j) => {
                        if j == k {
                            let v = views_seq(n.nodes@, ws[k].id) + views_seq(n.floating_nodes@, ws[k].id);
                            assert(fill(ws, n)[k].clients =~= ws[k].clients + v);
                            assert((ws[k].clients + v).take(ws[k].clients.len() as int) =~= ws[k].clients);
                        } else {
                            assert(ws[k].clients.take(ws[k].clients.len() as int) =~= ws[k].clients);
                        }
                    },
                    None => {
                        assert(ws[k].clients.take(ws[k].clients.len() as int) =~= ws[k].clients);
                    },
                },
            }
        }
    } else {
        lemma_fill_seq_keeps(ws, n.nodes@);
        lemma_fill_seq_keeps(fill_seq(ws, n.nodes@), n.floating_nodes@);
        let mid = fill_seq(ws, n.nodes@);
        assert forall|k: int| 0 <= k < ws.len() implies ({
            let w = #[trigger] fill(ws, n)[k];
            &&& w.id == ws[k].id
            &&& w.name == ws[k].name
            &&& ws[k].clients.len() <= w.clients.len()
            &&& w.clients.take(ws[k].clients.len() as int) == ws[k].clients
        }) by {
            let a = ws[k].clients;
            let b = mid[k].clients;
            let c = fill(ws, n)[k].clients;
            assert(b.take(a.len() as int) == a);
            assert(c.take(b.len() as int) == b);
            assert forall|j: int| 0 <= j < a.len() implies c.take(a.len() as int)[j] == a[j] by {
                assert(c.take(b.len() as int)[j] == c[j]);
                assert(b.take(a.len() as int)[j] == b[j]);
            }
            assert(c.take(a.len() as int) =~= a);
        }
    }
}

/// `fill_seq` keeps the workspaces as `fill` does.
pub proof fn lemma_fill_seq_keeps(ws: Seq<WorkspaceView>, s: Seq<SwayNode>)
    ensures
        fill_seq(ws, s).len() == ws.len(),
        forall|k: int|
            0 <= k < ws.len() ==> {
                let w = #[trigger] fill_seq(ws, s)[k];
                &&& w.id == ws[k].id
                &&& w.name == ws[k].name
                &&& ws[k].clients.len() <= w.clients.len()
                &&& w.clients.take(ws[k].clients.len() as int) == ws[k].clients
            },
    decreases s,
{
    if s.len() == 0 {
        assert forall|k: int| 0 <= k < ws.len() implies (#[trigger] fill_seq(ws, s)[k]).clients.take(
            ws[k].clients.len() as int,
        ) == ws[k].clients by {
            assert(ws[k].clients.take(ws[k].clients.len() as int) =~= ws[k].clients);
        }
    } else {
        lemma_fill_seq_keeps(ws, s.drop_last());
        let mid = fill_seq(ws, s.drop_last());
        lemma_fill_keeps(mid, s.last());
        assert forall|k: int| 0 <= k < ws.len() implies ({
            let w = #[trigger] fill_seq(ws, s)[k];
            &&& w.id == ws[k].id
            &&& w.name == ws[k].name
            &&& ws[k].clients.len() <= w.clients.len()
            &&& w.clients.take(ws[k].clients.len() as int) == ws[k].clients
        }) by {
            let a = ws[k].clients;
            let b = mid[k].clients;
            let c = fill_seq(ws, s)[k].clients;
            assert(b.take(a.len() as int) == a);
            assert(c.take(b.len() as int) == b);
            assert forall|j: int| 0 <= j < a.len() implies c.take(a.len() as int)[j] == a[j] by {
                assert(c.take(b.len() as int)[j] == c[j]);
                assert(b.take(a.len() as int)[j] == b[j]);
            }
            assert(c.take(a.len() as int) =~= a);
        }
    }
}

/// The name of the focused workspace in a `GET_WORKSPACES` reply: the first
/// entry marked focused, or empty.
pub open spec fn active_workspace_name(ws_list: Seq<SwayWorkspace>) -> Seq<char>
    decreases ws_list.len(),
{
    if ws_list.len() == 0 {
        Seq::empty()
    } else if ws_list[0].focused {
        ws_list[0].name@
    } else {
        active_workspace_name(ws_list.drop_first())
    }
}

/// The name of the focused workspace, or an empty string if unknown.
pub fn get_active_workspace_name(ws_list: &Vec<SwayWorkspace>) -> (res: String)
    ensures
        res@ == active_workspace_name(ws_list@),
{
    let mut i: usize = 0;
    while i < ws_list.len()
        invariant
            i <= ws_list@.len(),
            active_workspace_name(ws_list@) == active_workspace_name(ws_list@.skip(i as int)),
        decreases ws_list@.len() - i,
    {
        assert(ws_list@.skip(i as int)[0] == ws_list@[i as int]);
        assert(ws_list@.skip(i as int).drop_first() =~= ws_list@.skip(i + 1));
        if ws_list[i].focused {
            return ws_list[i].name.clone();
        }
        i = i + 1;
    }
    assert(ws_list@.skip(i as int).len() == 0);
    String::new()
}

// ── commands ────────────────────────────────────────────────────────────────

/// A character as it goes inside a double-quoted sway argument.
pub open spec fn escape_char(c: char) -> Seq<char> {
    if c == '\\' {
        seq!['\\', '\\']
    } else if c == '"' {
        seq!['\\', '"']
    } else {
        seq![c]
    }
}

/// `s` with every `\` and `"` escaped by a `\`.
pub open spec fn escape(s: Seq<char>) -> Seq<char>
    decreases s.len(),
{
    if s.len() == 0 {
        Seq::empty()
    } else {
        escape_char(s[0]) + escape(s.drop_first())
    }
}

/// Escaping a longer text appends the escaped last character.
pub proof fn lemma_escape_push(s: Seq<char>, c: char)
    ensures
        escape(s.push(c)) == escape(s) + escape_char(c),
    decreases s.len(),
{
    if s.len() == 0 {
        assert(s.push(c).drop_first() =~= Seq::<char>::empty());
        assert(escape(s.push(c)) =~= escape_char(c));
    } else {
        assert(s.push(c).drop_first() =~= s.drop_first().push(c));
        lemma_escape_push(s.drop_first(), c);
        assert(escape(s.push(c)) =~= escape(s) + escape_char(c));
    }
}

/// How sway reads the text between the quotes: `\` takes the next
/// character literally.
pub open spec fn unescape(t: Seq<char>) -> Seq<char>
    decreases t.len(),
{
    if t.len() == 0 {
        Seq::empty()
    } else if t[0] == '\\' && t.len() >= 2 {
        seq![t[1]] + unescape(t.skip(2))
    } else {
        seq![t[0]] + unescape(t.drop_first())
    }
}

/// Quoting loses nothing: reading the escaped text back gives the name.
pub proof fn lemma_unescape_escape(s: Seq<char>)
    ensures
        unescape(escape(s)) == s,
    decreases s.len(),
{
    if s.len() > 0 {
        lemma_unescape_escape(s.drop_first());
        let e = escape_char(s[0]);
        let rest = escape(s.drop_first());
        assert(escape(s) == e + rest);
        if s[0] == '\\' || s[0] == '"' {
            assert((e + rest).skip(2) =~= rest);
        } else {
            assert((e + rest).drop_first() =~= rest);
        }
        assert(unescape(escape(s)) =~= s);
    }
}

/// An escaped text never holds a `"` that is not escaped, so the quoted
/// argument ends only at its closing quote.
pub open spec fn quotes_escaped(t: Seq<char>) -> bool
    decreases t.len(),
{
    if t.len() == 0 {
        true
    } else if t[0] == '\\' {
        t.len() >= 2 && quotes_escaped(t.skip(2))
    } else {
        t[0] != '"' && quotes_escaped(t.drop_first())
    }
}

/// Every `"` and `\` of an escaped text is escaped.
pub proof fn lemma_escape_quotes_escaped(s: Seq<char>)
    ensures
        quotes_escaped(escape(s)),
    decreases s.len(),
{
    if s.len() > 0 {
        lemma_escape_quotes_escaped(s.drop_first());
        let e = escape_char(s[0]);
        let rest = escape(s.drop_first());
        if s[0] == '\\' || s[0] == '"' {
            assert((e + rest).skip(2) =~= rest);
        } else {
            assert((e + rest).drop_first() =~= rest);
        }
    }
}

/// `s` as a double-quoted sway command argument.
pub open spec fn quoted(s: Seq<char>) -> Seq<char> {
    seq!['"'] + escape(s) + seq!['"']
}

/// Escapes a workspace name for use inside a double-quoted sway command argument.
pub fn quote(name: &str) -> (res: String)
    ensures
        res@ == quoted(name@),
{
    let cs = to_chars(name);
    let mut out: Vec<char> = vec!['"'];
    let mut i: usize = 0;
    while i < cs.len()
        invariant
            i <= cs@.len(),
            out@ =~= seq!['"'] + escape(cs@.take(i as int)),
        decreases cs@.len() - i,
    {
        let c = cs[i];
        if c == '\\' {
            out.push('\\');
            out.push('\\');
        } else if c == '"' {
            out.push('\\');
            out.push('"');
        } else {
            out.push(c);
        }
        proof {
            assert(cs@.take(i + 1) =~= cs@.take(i as int).push(c));
            lemma_escape_push(cs@.take(i as int), c);
        }
        i = i + 1;
    }
    assert(cs@.take(i as int) =~= cs@);
    out.push('"');
    string_from_chars(out.as_slice())
}

/// The command that focuses the named workspace.
pub open spec fn switch_command(name: Seq<char>) -> Seq<char> {
    "workspace "@ + quoted(name)
}

/// The command that moves container `con_id` to the named workspace.
pub open spec fn move_command(con_id: u64, name: Seq<char>) -> Seq<char> {
    "[con_id="@ + decimal_text(con_id as int) + "] move container to workspace "@ + quoted(name)
}

/// The command that focuses the named workspace.
pub fn switch_workspace(name: &str) -> (res: String)
    ensures
        res@ == switch_command(name@),
{
    let mut m = to_chars("workspace ");
    let q = quote(name);
    let qc = to_chars(q.as_str());
    push_all(&mut m, qc.as_slice());
    string_from_chars(m.as_slice())
}

/// The command that moves container `con_id` to the named workspace.
pub fn move_window_to_workspace(con_id: u64, name: &str) -> (res: String)
    ensures
        res@ == move_command(con_id, name@),
{
    let mut m = to_chars("[con_id=");
    let d = format_unsigned(con_id);
    push_all(&mut m, d.as_slice());
    let mid = to_chars("] move container to workspace ");
    push_all(&mut m, mid.as_slice());
    let q = quote(name);
    let qc = to_chars(q.as_str());
    push_all(&mut m, qc.as_slice());
    string_from_chars(m.as_slice())
}


// ── message framing ─────────────────────────────────────────────────────────

/// Message type of a command request.
pub const RUN_COMMAND: u32 = 0;

/// Message type of a workspace list request.
pub const GET_WORKSPACES: u32 = 1;

/// Message type of a layout tree request.
pub const GET_TREE: u32 = 4;

/// Length of the header that starts every message.
pub const HEADER_LEN: usize = 14;

/// `i3-ipc`, the magic string that starts every message.
pub open spec fn magic() -> Seq<u8> {
    seq![105u8, 51u8, 45u8, 105u8, 112u8, 99u8]
}

/// Byte order of the two 32-bit header fields (the machine's own, for i3 IPC).
#[derive(Debug, Clone, Copy, PartialEq, Eq, Structural)]
pub enum ByteOrder {
    Little,
    Big,
}

/// The four bytes of `v` in the given order.
pub open spec fn u32_bytes(order: ByteOrder, v: u32) -> Seq<u8> {
    let b0 = (v & 0xff) as u8;
    let b1 = ((v >> 8u32) & 0xff) as u8;
    let b2 = ((v >> 16u32) & 0xff) as u8;
    let b3 = ((v >> 24u32) & 0xff) as u8;
    match order {
        ByteOrder::Little => seq![b0, b1, b2, b3],
        ByteOrder::Big => seq![b3, b2, b1, b0],
    }
}

pub open spec fn le_value(b0: u8, b1: u8, b2: u8, b3: u8) -> u32 {
    (b0 as u32) | ((b1 as u32) << 8u32) | ((b2 as u32) << 16u32) | ((b3 as u32) << 24u32)
}

/// The 32-bit value of four bytes read in the given order.
pub open spec fn u32_value(order: ByteOrder, b: Seq<u8>) -> u32 {
    match order {
        ByteOrder::Little => le_value(b[0], b[1], b[2], b[3]),
        ByteOrder::Big => le_value(b[3], b[2], b[1], b[0]),
    }
}

/// A whole message: magic, payload length, message type, payload.
pub open spec fn message(order: ByteOrder, msg_type: u32, payload: Seq<u8>) -> Seq<u8> {
    magic() + u32_bytes(order, payload.len() as u32) + u32_bytes(order, msg_type) + payload
}

/// Payload length announced by a reply header, when the header starts with
/// the magic string.
pub open spec fn reply_length(order: ByteOrder, header: Seq<u8>) -> Option<u32> {
    if header.subrange(0, 6) == magic() {
        Some(u32_value(order, header.subrange(6, 10)))
    } else {
        None
    }
}

/// The byte order of the machine the program runs on, as vstd names it
/// (`vstd::endian::endianness`).
pub open spec fn machine_order() -> ByteOrder {
    match vstd::endian::endianness() {
        vstd::endian::Endian::Little => ByteOrder::Little,
        vstd::endian::Endian::Big => ByteOrder::Big,
    }
}

/// `u32::from_ne_bytes` of std: four bytes read in the machine's own byte
/// order ("native endianness" in std's documentation). The claim is that
/// the value is their reading in the order that vstd's `endianness()`
/// names for this machine.
#[verifier::external_body]
fn u32_from_native_bytes(b: [u8; 4]) -> (v: u32)
    ensures
        v == u32_value(machine_order(), b@),
{
    u32::from_ne_bytes(b)
}

/// The byte order of this machine, which i3 IPC uses for its header fields.
pub fn native_byte_order() -> (res: ByteOrder)
    ensures
        res == machine_order(),
{
    let one = [1u8, 0u8, 0u8, 0u8];
    let v = u32_from_native_bytes(one);
    proof {
        let b = one@;
        assert(b[0] == 1u8 && b[1] == 0u8 && b[2] == 0u8 && b[3] == 0u8);
        assert(le_value(1u8, 0u8, 0u8, 0u8) == 1u32) by (bit_vector);
        assert(le_value(0u8, 0u8, 0u8, 1u8) == 0x0100_0000u32) by (bit_vector);
    }
    if v == 1 {
        ByteOrder::Little
    } else {
        ByteOrder::Big
    }
}

fn push_u32(out: &mut Vec<u8>, order: ByteOrder, v: u32)
    ensures
        final(out)@ == old(out)@ + u32_bytes(order, v),
{
    let b0 = (v & 0xff) as u8;
    let b1 = ((v >> 8u32) & 0xff) as u8;
    let b2 = ((v >> 16u32) & 0xff) as u8;
    let b3 = ((v >> 24u32) & 0xff) as u8;
    match order {
        ByteOrder::Little => {
            out.push(b0);
            out.push(b1);
            out.push(b2);
            out.push(b3);
        },
        ByteOrder::Big => {
            out.push(b3);
            out.push(b2);
            out.push(b1);
            out.push(b0);
        },
    }
    assert(out@ =~= old(out)@ + u32_bytes(order, v));
}

/// The bytes of a request: header, then the payload's UTF-8 bytes.
pub fn encode_message(order: ByteOrder, msg_type: u32, payload: &str) -> (res: Vec<u8>)
    ensures
        res@ == message(order, msg_type, payload.spec_bytes()),
{
    let body = payload.as_bytes_vec();
    let mut out: Vec<u8> = vec![105u8, 51u8, 45u8, 105u8, 112u8, 99u8];
    assert(out@ =~= magic());
    push_u32(&mut out, order, #[verifier::truncate] (body.len() as u32));
    push_u32(&mut out, order, msg_type);
    let mut i: usize = 0;
    let ghost hdr = out@;
    while i < body.len()
        invariant
            i <= body@.len(),
            out@ =~= hdr + body@.take(i as int),
        decreases body@.len() - i,
    {
        out.push(body[i]);
        i = i + 1;
    }
    assert(body@.take(i as int) =~= body@);
    out
}

/// The payload length that a 14-byte reply header announces, or `None`
/// when it does not start with `i3-ipc`.
pub fn decode_reply_header(order: ByteOrder, header: &[u8]) -> (res: Option<u32>)
    requires
        header@.len() == HEADER_LEN,
    ensures
        res == reply_length(order, header@),
{
    if !(header[0] == 105u8 && header[1] == 51u8 && header[2] == 45u8 && header[3] == 105u8
        && header[4] == 112u8 && header[5] == 99u8) {
        assert(header@.subrange(0, 6) != magic()) by {
            if header@.subrange(0, 6) == magic() {
                assert(header@.subrange(0, 6)[0] == header@[0]);
                assert(header@.subrange(0, 6)[1] == header@[1]);
                assert(header@.subrange(0, 6)[2] == header@[2]);
                assert(header@.subrange(0, 6)[3] == header@[3]);
                assert(header@.subrange(0, 6)[4] == header@[4]);
                assert(header@.subrange(0, 6)[5] == header@[5]);
            }
        }
        return None;
    }
    assert(header@.subrange(0, 6) =~= magic());
    let (b0, b1, b2, b3) = match order {
        ByteOrder::Little => (header[6], header[7], header[8], header[9]),
        ByteOrder::Big => (header[9], header[8], header[7], header[6]),
    };
    let v = (b0 as u32) | ((b1 as u32) << 8u32) | ((b2 as u32) << 16u32) | ((b3 as u32) << 24u32);
    Some(v)
}

/// Reading back the header of a message gives the payload length it was
/// framed with (truncated to 32 bits, as the header field is).
pub proof fn lemma_header_roundtrip(order: ByteOrder, msg_type: u32, payload: Seq<u8>)
    ensures
        reply_length(order, message(order, msg_type, payload).take(HEADER_LEN as int)) == Some(
            payload.len() as u32,
        ),
{
    let m = message(order, msg_type, payload);
    let v = payload.len() as u32;
    let h = m.take(HEADER_LEN as int);
    assert(h.subrange(0, 6) =~= magic());
    assert(h.subrange(6, 10) =~= u32_bytes(order, v));
    let b0 = (v & 0xff) as u8;
    let b1 = ((v >> 8u32) & 0xff) as u8;
    let b2 = ((v >> 16u32) & 0xff) as u8;
    let b3 = ((v >> 24u32) & 0xff) as u8;
    assert(le_value(b0, b1, b2, b3) == v) by (bit_vector)
        requires
            b0 == (v & 0xff) as u8,
            b1 == ((v >> 8u32) & 0xff) as u8,
            b2 == ((v >> 16u32) & 0xff) as u8,
            b3 == ((v >> 24u32) & 0xff) as u8,
    ;
}

/// A framed command request.
pub fn run_command(order: ByteOrder, cmd: &str) -> (res: Vec<u8>)
    ensures
        res@ == message(order, RUN_COMMAND, cmd.spec_bytes()),
{
    encode_message(order, RUN_COMMAND, cmd)
}

} // verus!
