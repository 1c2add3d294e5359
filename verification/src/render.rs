//! What the drawing code needs to decide before it draws: window
//! thumbnails by address, card and window labels, the fallback colour of a
//! window without a thumbnail, and the extent of a workspace's windows.
use vstd::prelude::*;

use crate::ipc::{client_views, ClientInfo, ClientView, WorkspaceInfo};
use crate::text::{decimal_text, format_decimal, push_all, string_from_chars, to_chars};

verus! {

broadcast use vstd::seq_lib::group_seq_properties;

/// A captured window image (ARGB32 rows of `stride` bytes).
pub struct Thumbnail {
    pub address: u64,
    pub data: Vec<u8>,
    pub width: u32,
    pub height: u32,
    pub stride: u32,
}

/// Index of the first thumbnail at or after `i` taken of the window at `address`.
pub open spec fn thumb_index(thumbnails: Seq<Thumbnail>, address: u64, i: int) -> Option<int>
    decreases thumbnails.len() - i,
{
    if i >= thumbnails.len() || i < 0 {
        None
    } else if thumbnails[i].address == address {
        Some(i)
    } else {
        thumb_index(thumbnails, address, i + 1)
    }
}

/// The first thumbnail of the window at `address`, if one was taken.
pub fn find_thumb<'a>(thumbnails: &'a [Thumbnail], address: u64) -> (res: Option<&'a Thumbnail>)
    ensures
        match thumb_index(thumbnails@, address, 0) {
            Some(i) => res is Some && *res->0 == thumbnails@[i],
            None => res is None,
        },
{
    let mut i: usize = 0;
    while i < thumbnails.len()
        invariant
            i <= thumbnails@.len(),
            thumb_index(thumbnails@, address, i as int) == thumb_index(thumbnails@, address, 0),
        decreases thumbnails@.len() - i,
    {
        if thumbnails[i].address == address {
            return Some(&thumbnails[i]);
        }
        i = i + 1;
    }
    None
}

/// The 31-multiplier string hash of `bytes`, wrapping at 32 bits.
pub open spec fn class_hash(bytes: Seq<u8>) -> u32
    decreases bytes.len(),
{
    if bytes.len() == 0 {
        0
    } else {
        vstd::wrapping::u32_specs::wrapping_add(
            vstd::wrapping::u32_specs::wrapping_mul(class_hash(bytes.drop_last()), 31),
            bytes.last() as u32,
        )
    }
}

/// The hash of a window class (of its UTF-8 bytes) that picks the colour of
/// a window drawn without a thumbnail.
pub fn class_color_hash(class_name: &str) -> (res: u32)
    ensures
        res == class_hash(vstd::utf8::encode_utf8(class_name@)),
{
    let bytes = class_name.as_bytes();
    let mut h: u32 = 0;
    let mut i: usize = 0;
    while i < bytes.len()
        invariant
            i <= bytes@.len(),
            bytes@ == vstd::utf8::encode_utf8(class_name@),
            h == class_hash(bytes@.take(i as int)),
        decreases bytes@.len() - i,
    {
        assert(bytes@.take(i + 1).drop_last() =~= bytes@.take(i as int));
        h = h.wrapping_mul(31).wrapping_add(bytes[i] as u32);
        i = i + 1;
    }
    assert(bytes@.take(i as int) =~= bytes@);
    h
}

/// The label of a window: its class, or its title when it has no class.
pub fn client_label(client: &ClientInfo) -> (res: &String)
    ensures
        res@ == if client.class_name@.len() == 0 {
            client.title@
        } else {
            client.class_name@
        },
{
    if client.class_name.as_str().is_empty() {
        &client.title
    } else {
        &client.class_name
    }
}

/// The label of a workspace card: the number (for numbered workspaces)
/// followed by the name when that differs from it; just the name for
/// unnumbered ones; the id itself when both are empty.
pub open spec fn label_of(id: i32, name: Seq<char>) -> Seq<char> {
    let number = if id >= 1 {
        decimal_text(id as int)
    } else {
        Seq::empty()
    };
    let label = if name.len() > 0 && name != number {
        (if number.len() > 0 {
            number + seq![' ']
        } else {
            number
        }) + name
    } else {
        number
    };
    if label.len() == 0 {
        decimal_text(id as int)
    } else {
        label
    }
}

/// The label of a workspace card.
pub fn workspace_label(ws: &WorkspaceInfo) -> (res: String)
    ensures
        res@ == label_of(ws.id, ws.name@),
{
    let number: Vec<char> = if ws.id >= 1 {
        format_decimal(ws.id as i64)
    } else {
        Vec::new()
    };
    let name = to_chars(ws.name.as_str());
    let mut label: Vec<char> = Vec::new();
    push_all(&mut label, number.as_slice());
    if name.len() > 0 && !crate::text::chars_eq(name.as_slice(), number.as_slice()) {
        if number.len() > 0 {
            label.push(' ');
        }
        push_all(&mut label, name.as_slice());
    }
    if label.len() == 0 {
        label = format_decimal(ws.id as i64);
    }
    assert(label@ =~= label_of(ws.id, ws.name@));
    string_from_chars(label.as_slice())
}

/// The smallest left and top edges and the largest right and bottom edges
/// of the windows of `cs` (starting from the extreme `i32` values).
pub open spec fn bounds_of(cs: Seq<ClientView>) -> (int, int, int, int)
    decreases cs.len(),
{
    if cs.len() == 0 {
        (i32::MAX as int, i32::MAX as int, i32::MIN as int, i32::MIN as int)
    } else {
        let b = bounds_of(cs.drop_last());
        let c = cs.last();
        (
            if c.x < b.0 {
                c.x as int
            } else {
                b.0
            },
            if c.y < b.1 {
                c.y as int
            } else {
                b.1
            },
            if c.x + c.w > b.2 {
                c.x + c.w
            } else {
                b.2
            },
            if c.y + c.h > b.3 {
                c.y + c.h
            } else {
                b.3
            },
        )
    }
}

/// Every window's right and bottom edges fit in an `i32`.
pub open spec fn edges_fit(cs: Seq<ClientView>) -> bool {
    forall|i: int|
        0 <= i < cs.len() ==> i32::MIN <= (#[trigger] cs[i]).x + cs[i].w <= i32::MAX && i32::MIN
            <= cs[i].y + cs[i].h <= i32::MAX
}

/// The extent (min x, min y, max right, max bottom) of a workspace's windows.
pub fn clients_bounds(clients: &Vec<ClientInfo>) -> (res: (i32, i32, i32, i32))
    requires
        edges_fit(client_views(clients@)),
    ensures
        (res.0 as int, res.1 as int, res.2 as int, res.3 as int) == bounds_of(client_views(clients@)),
{
    let ghost cs = client_views(clients@);
    let mut b: (i32, i32, i32, i32) = (i32::MAX, i32::MAX, i32::MIN, i32::MIN);
    let mut i: usize = 0;
    while i < clients.len()
        invariant
            i <= clients@.len(),
            cs == client_views(clients@),
            edges_fit(cs),
            (b.0 as int, b.1 as int, b.2 as int, b.3 as int) == bounds_of(cs.take(i as int)),
        decreases clients@.len() - i,
    {
        let c = &clients[i];
        assert(cs[i as int] == c@);
        assert(cs.take(i + 1).drop_last() =~= cs.take(i as int));
        let right = c.x + c.w;
        let bottom = c.y + c.h;
        b = (
            if c.x < b.0 {
                c.x
            } else {
                b.0
            },
            if c.y < b.1 {
                c.y
            } else {
                b.1
            },
            if right > b.2 {
                right
            } else {
                b.2
            },
            if bottom > b.3 {
                bottom
            } else {
                b.3
            },
        );
        i = i + 1;
    }
    assert(cs.take(i as int) =~= cs);
    b
}

} // verus!
