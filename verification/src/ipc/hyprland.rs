//! Hyprland: reading its flat JSON replies, and the dispatch messages.
//!
//! Hyprland's replies are read with a few small field extractors rather than
//! a JSON library; each is specified here exactly, quirks included.
use vstd::prelude::*;

use crate::ipc::{client_views, workspace_views, ClientInfo, ClientView, WorkspaceInfo, WorkspaceView};
use crate::text::{
    chars_eq, decimal_text, format_decimal, format_hex, hex_text, trim, trim_exec, copy_range, find, find_char_from, find_chars_from, find_from, lemma_find_from, number_end,
    number_end_exec, parse_hex, parse_hex_u64, parse_i32, parse_i64, parse_signed, push_all,
    skip_blanks, skip_blanks_exec, skip_whitespace, skip_whitespace_exec, string_from_chars,
    to_chars,
};

verus! {

broadcast use vstd::seq_lib::group_seq_properties;

// ── field extractors ────────────────────────────────────────────────────────

/// `"key":`, the text that introduces a field.
pub open spec fn needle(key: Seq<char>) -> Seq<char> {
    seq!['"'] + key + seq!['"', ':']
}

/// The string value of the first field `key`: after `"key":` and any
/// spaces or tabs, the text between a `"` and the next `"`; empty when the
/// field is missing, its value does not start with `"`, or the closing `"`
/// is missing.
pub open spec fn string_field(json: Seq<char>, key: Seq<char>) -> Seq<char> {
    match find(json, needle(key)) {
        None => Seq::empty(),
        Some(p) => {
            let r = skip_blanks(json, p + needle(key).len());
            if r < json.len() && json[r] == '"' {
                match find_from(json, seq!['"'], r + 1) {
                    Some(e) => json.subrange(r + 1, e),
                    None => Seq::empty(),
                }
            } else {
                Seq::empty()
            }
        },
    }
}

/// The run of digits and `-` that starts at `r`, read as an integer in
/// `lo..=hi`, or 0 when it does not read as one.
pub open spec fn number_at(json: Seq<char>, r: int, lo: int, hi: int) -> int {
    match parse_signed(json.subrange(r, number_end(json, r)), lo, hi) {
        Some(v) => v,
        None => 0,
    }
}

/// The integer value of the first field `key` (after spaces or tabs), or 0.
pub open spec fn int_field(json: Seq<char>, key: Seq<char>) -> i64 {
    match find(json, needle(key)) {
        None => 0,
        Some(p) => number_at(
            json,
            skip_blanks(json, p + needle(key).len()),
            i64::MIN as int,
            i64::MAX as int,
        ) as i64,
    }
}

/// The two integers of the first field `key` whose value is an array: the
/// number right after the next `[`, and the number after the next `,` and
/// any whitespace; 0 for each that is missing or does not read as an `i32`.
pub open spec fn pair_field(json: Seq<char>, key: Seq<char>) -> (i32, i32) {
    match find(json, needle(key)) {
        None => (0, 0),
        Some(p) => match find_from(json, seq!['['], p + needle(key).len()) {
            None => (0, 0),
            Some(b) => {
                let a = number_at(json, b + 1, i32::MIN as int, i32::MAX as int) as i32;
                match find_from(json, seq![','], b + 1) {
                    None => (a, 0),
                    Some(c) => (
                        a,
                        number_at(
                            json,
                            skip_whitespace(json, c + 1),
                            i32::MIN as int,
                            i32::MAX as int,
                        ) as i32,
                    ),
                }
            },
        },
    }
}

/// The window address in the field `address`: hexadecimal, with an
/// optional `0x`; 0 when missing or unreadable.
pub open spec fn address_field(json: Seq<char>) -> u64 {
    let s = string_field(json, "address"@);
    let hex = if s.len() >= 2 && s[0] == '0' && s[1] == 'x' {
        s.skip(2)
    } else {
        s
    };
    match parse_hex_u64(hex) {
        Some(v) => v,
        None => 0,
    }
}

/// State of the object scanner after the first `n` characters: brace depth,
/// start of the current top-level object, whether inside a string, and the
/// (first, last) index of each complete top-level object so far.
pub open spec fn scan(s: Seq<char>, n: int) -> (int, int, bool, Seq<(int, int)>)
    decreases n,
{
    if n <= 0 {
        (0, 0, false, Seq::empty())
    } else {
        let st = scan(s, n - 1);
        let i = n - 1;
        let c = s[i];
        let in_string = if c == '"' && (i == 0 || s[i - 1] != '\\') {
            !st.2
        } else {
            st.2
        };
        if in_string {
            (st.0, st.1, in_string, st.3)
        } else if c == '{' {
            (st.0 + 1, if st.0 == 0 {
                i
            } else {
                st.1
            }, in_string, st.3)
        } else if c == '}' {
            let d = st.0 - 1;
            (d, st.1, in_string, if d == 0 {
                st.3.push((st.1, i))
            } else {
                st.3
            })
        } else {
            (st.0, st.1, in_string, st.3)
        }
    }
}

/// The text of each top-level `{...}` object of a JSON array, in order.
/// Braces inside strings (a `"` not preceded by `\` opens or closes one)
/// do not count.
pub open spec fn objects(s: Seq<char>) -> Seq<Seq<char>> {
    scan(s, s.len() as int).3.map_values(|r: (int, int)| s.subrange(r.0, r.1 + 1))
}

proof fn lemma_scan(s: Seq<char>, n: int)
    requires
        0 <= n <= s.len(),
    ensures
        ({
            let st = scan(s, n);
            &&& st.0 >= 1 ==> 0 <= st.1 < n && s[st.1] == '{'
            &&& forall|j: int|
                0 <= j < st.3.len() ==> {
                    let r = #[trigger] st.3[j];
                    0 <= r.0 < r.1 < n && s[r.0] == '{' && s[r.1] == '}'
                }
        }),
    decreases n,
{
    if n > 0 {
        lemma_scan(s, n - 1);
    }
}

/// Each object that the scanner cuts out of a reply runs from a `{` to a `}`.
pub proof fn lemma_objects_are_braced(s: Seq<char>)
    ensures
        forall|k: int|
            0 <= k < objects(s).len() ==> {
                let o = #[trigger] objects(s)[k];
                &&& o.len() >= 2
                &&& o[0] == '{'
                &&& o[o.len() - 1] == '}'
            },
{
    lemma_scan(s, s.len() as int);
    let st = scan(s, s.len() as int);
    assert forall|k: int| 0 <= k < objects(s).len() implies ({
        let o = #[trigger] objects(s)[k];
        &&& o.len() >= 2
        &&& o[0] == '{'
        &&& o[o.len() - 1] == '}'
    }) by {
        let r = st.3[k];
        assert(objects(s)[k] == s.subrange(r.0, r.1 + 1));
    }
}

pub open spec fn char_vec_views(v: Seq<Vec<char>>) -> Seq<Seq<char>> {
    v.map_values(|x: Vec<char>| x@)
}

/// `"key":` for a given key.
fn make_needle(key: &str) -> (res: Vec<char>)
    ensures
        res@ == needle(key@),
{
    let mut res: Vec<char> = vec!['"'];
    let k = to_chars(key);
    push_all(&mut res, k.as_slice());
    res.push('"');
    res.push(':');
    assert(res@ =~= needle(key@));
    res
}

/// `string_field(json, key)`, computed.
pub fn json_string(json: &[char], key: &str) -> (res: Vec<char>)
    ensures
        res@ == string_field(json@, key@),
{
    let nd = make_needle(key);
    match find_chars_from(json, nd.as_slice(), 0) {
        None => Vec::new(),
        Some(p) => {
            proof {
                lemma_find_from(json@, nd@, 0);
            }
            let r = skip_blanks_exec(json, p + nd.len());
            if r < json.len() && json[r] == '"' {
                match find_char_from(json, '"', r + 1) {
                    Some(e) => {
                        proof {
                            lemma_find_from(json@, seq!['"'], r + 1);
                        }
                        copy_range(json, r + 1, e)
                    },
                    None => Vec::new(),
                }
            } else {
                Vec::new()
            }
        },
    }
}

/// `number_at(json, r, i64::MIN, i64::MAX)`, computed.
fn number_at_i64(json: &[char], r: usize) -> (res: i64)
    requires
        r <= json@.len(),
    ensures
        res as int == number_at(json@, r as int, i64::MIN as int, i64::MAX as int),
{
    let e = number_end_exec(json, r);
    let t = copy_range(json, r, e);
    match parse_i64(t.as_slice()) {
        Some(v) => v,
        None => 0,
    }
}

/// `number_at(json, r, i32::MIN, i32::MAX)`, computed.
fn number_at_i32(json: &[char], r: usize) -> (res: i32)
    requires
        r <= json@.len(),
    ensures
        res as int == number_at(json@, r as int, i32::MIN as int, i32::MAX as int),
{
    let e = number_end_exec(json, r);
    let t = copy_range(json, r, e);
    match parse_i32(t.as_slice()) {
        Some(v) => v,
        None => 0,
    }
}

/// `int_field(json, key)`, computed.
pub fn json_int(json: &[char], key: &str) -> (res: i64)
    ensures
        res == int_field(json@, key@),
{
    let nd = make_needle(key);
    match find_chars_from(json, nd.as_slice(), 0) {
        None => 0,
        Some(p) => {
            proof {
                lemma_find_from(json@, nd@, 0);
            }
            let r = skip_blanks_exec(json, p + nd.len());
            number_at_i64(json, r)
        },
    }
}

/// `pair_field(json, key)`, computed.
pub fn parse_array_pair(json: &[char], key: &str) -> (res: (i32, i32))
    ensures
        res == pair_field(json@, key@),
{
    let nd = make_needle(key);
    match find_chars_from(json, nd.as_slice(), 0) {
        None => (0, 0),
        Some(p) => {
            proof {
                lemma_find_from(json@, nd@, 0);
            }
            match find_char_from(json, '[', p + nd.len()) {
                None => (0, 0),
                Some(b) => {
                    proof {
                        lemma_find_from(json@, seq!['['], (p + nd.len()) as int);
                    }
                    let a = number_at_i32(json, b + 1);
                    match find_char_from(json, ',', b + 1) {
                        None => (a, 0),
                        Some(c) => {
                            proof {
                                lemma_find_from(json@, seq![','], b + 1);
                            }
                            let t = skip_whitespace_exec(json, c + 1);
                            (a, number_at_i32(json, t))
                        },
                    }
                },
            }
        },
    }
}

/// `address_field(json)`, computed.
pub fn parse_address(json: &[char]) -> (res: u64)
    ensures
        res == address_field(json@),
{
    let s = json_string(json, "address");
    let hex = if s.len() >= 2 && s[0] == '0' && s[1] == 'x' {
        copy_range(s.as_slice(), 2, s.len())
    } else {
        s
    };
    match parse_hex(hex.as_slice()) {
        Some(v) => v,
        None => 0,
    }
}

/// `objects(json)`, computed.
pub fn json_array_objects(json: &[char]) -> (res: Vec<Vec<char>>)
    ensures
        char_vec_views(res@) == objects(json@),
{
    let n = json.len();
    let mut objs: Vec<Vec<char>> = Vec::new();
    let mut depth: i128 = 0;
    let mut start: usize = 0;
    let mut in_string = false;
    let mut i: usize = 0;
    while i < n
        invariant
            n == json@.len(),
            i <= n,
            start <= i,
            -(i as int) <= depth <= i,
            scan(json@, i as int) == (depth as int, start as int, in_string, scan(
                json@,
                i as int,
            ).3),
            char_vec_views(objs@) =~= scan(json@, i as int).3.map_values(
                |r: (int, int)| json@.subrange(r.0, r.1 + 1),
            ),
        decreases n - i,
    {
        let c = json[i];
        let ghost st = scan(json@, i as int);
        if c == '"' && (i == 0 || json[i - 1] != '\\') {
            in_string = !in_string;
        }
        if !in_string {
            if c == '{' {
                if depth == 0 {
                    start = i;
                }
                depth = depth + 1;
            } else if c == '}' {
                depth = depth - 1;
                if depth == 0 {
                    let obj = copy_range(json, start, i + 1);
                    let ghost before = objs@;
                    objs.push(obj);
                    assert(char_vec_views(objs@) =~= char_vec_views(before).push(
                        json@.subrange(start as int, i + 1),
                    ));
                }
            }
        }
        assert(scan(json@, i + 1) == (depth as int, start as int, in_string, scan(
            json@,
            i + 1,
        ).3));
        i = i + 1;
    }
    objs
}

// ── workspaces and clients ─────────────────────────────────────────────────

/// The workspace a client object names: the number in `"workspace":`, or,
/// when that reads as 0, the `"id"` inside the first `{...}` after
/// `"workspace":` (Hyprland's nested form); 0 when neither is found.
pub open spec fn client_workspace(cj: Seq<char>) -> i32 {
    let direct = int_field(cj, "workspace"@) as i32;
    if direct != 0 {
        direct
    } else {
        match find(cj, needle("workspace"@)) {
            None => 0,
            Some(pos) => match find_from(cj, seq!['{'], pos) {
                None => 0,
                Some(b) => match find_from(cj, seq!['}'], b) {
                    None => 0,
                    Some(e) => int_field(cj.subrange(b, e + 1), "id"@) as i32,
                },
            },
        }
    }
}

/// The client that a client object describes.
pub open spec fn client_of(cj: Seq<char>) -> ClientView {
    ClientView {
        class_name: string_field(cj, "class"@),
        title: string_field(cj, "title"@),
        address: address_field(cj),
        workspace_id: client_workspace(cj),
        x: pair_field(cj, "at"@).0,
        y: pair_field(cj, "at"@).1,
        w: pair_field(cj, "size"@).0,
        h: pair_field(cj, "size"@).1,
    }
}

/// The workspace that a workspace object describes, still without clients.
pub open spec fn workspace_of(wj: Seq<char>) -> WorkspaceView {
    WorkspaceView {
        id: int_field(wj, "id"@) as i32,
        name: string_field(wj, "name"@),
        monitor_id: int_field(wj, "monitorID"@) as i32,
        clients: Seq::empty(),
    }
}

pub open spec fn is_regular(w: WorkspaceView) -> bool {
    w.id >= 1
}

/// The regular workspaces (id at least 1; special workspaces are negative)
/// that a `j/workspaces` reply lists, in reply order.
pub open spec fn listed_workspaces(ws_json: Seq<char>) -> Seq<WorkspaceView> {
    objects(ws_json).map_values(|wj: Seq<char>| workspace_of(wj)).filter(
        |w: WorkspaceView| is_regular(w),
    )
}

/// First index at or after `i` whose element has an id greater than `id`,
/// or the length.
pub open spec fn upper_bound_from(s: Seq<WorkspaceView>, id: i32, i: int) -> int
    decreases s.len() - i,
{
    if i >= s.len() || i < 0 {
        s.len() as int
    } else if s[i].id > id {
        i
    } else {
        upper_bound_from(s, id, i + 1)
    }
}

/// `w` put after every element of `s` up to the first with a greater id.
pub open spec fn insert_by_id(s: Seq<WorkspaceView>, w: WorkspaceView) -> Seq<WorkspaceView> {
    let k = upper_bound_from(s, w.id, 0);
    s.take(k) + seq![w] + s.skip(k)
}

/// `s` in ascending order of id, equal ids in their order in `s` (a stable
/// sort by id, as `sort_by_key` makes it).
pub open spec fn sort_by_id(s: Seq<WorkspaceView>) -> Seq<WorkspaceView>
    decreases s.len(),
{
    if s.len() == 0 {
        s
    } else {
        insert_by_id(sort_by_id(s.drop_last()), s.last())
    }
}

/// Index of the first workspace at or after `i` with the given id.
pub open spec fn first_with_id_from(ws: Seq<WorkspaceView>, id: i32, i: int) -> Option<int>
    decreases ws.len() - i,
{
    if i >= ws.len() || i < 0 {
        None
    } else if ws[i].id == id {
        Some(i)
    } else {
        first_with_id_from(ws, id, i + 1)
    }
}

pub open spec fn first_with_id(ws: Seq<WorkspaceView>, id: i32) -> Option<int> {
    first_with_id_from(ws, id, 0)
}

/// Each client appended, in order, to the first workspace whose id is the
/// client's workspace id; clients of no listed workspace are dropped.
pub open spec fn assign_clients(ws: Seq<WorkspaceView>, cs: Seq<ClientView>) -> Seq<
    WorkspaceView,
> {
    Seq::new(
        ws.len(),
        |k: int|
            WorkspaceView {
                clients: ws[k].clients + cs.filter(
                    |c: ClientView| first_with_id(ws, c.workspace_id) == Some(k),
                ),
                ..ws[k]
            },
    )
}

/// What `get_workspaces` makes of the two replies.
pub open spec fn workspaces_from(ws_json: Seq<char>, cl_json: Seq<char>) -> Seq<WorkspaceView> {
    assign_clients(
        sort_by_id(listed_workspaces(ws_json)),
        objects(cl_json).map_values(|cj: Seq<char>| client_of(cj)),
    )
}

proof fn lemma_upper_bound_bounds(s: Seq<WorkspaceView>, id: i32, i: int)
    requires
        0 <= i <= s.len(),
    ensures
        i <= upper_bound_from(s, id, i) <= s.len(),
    decreases s.len() - i,
{
    if i < s.len() && s[i].id <= id {
        lemma_upper_bound_bounds(s, id, i + 1);
    }
}

/// Indices of `insert_by_id(s, w)`: the prefix of `s` up to the insertion
/// point, then `w`, then the rest of `s`.
proof fn lemma_insert_shape(s: Seq<WorkspaceView>, w: WorkspaceView)
    ensures
        ({
            let k = upper_bound_from(s, w.id, 0);
            let r = insert_by_id(s, w);
            &&& 0 <= k <= s.len()
            &&& r.len() == s.len() + 1
            &&& r[k] == w
            &&& forall|i: int| 0 <= i < k ==> r[i] == s[i]
            &&& forall|i: int| k < i <= s.len() ==> r[i] == s[i - 1]
        }),
{
    lemma_upper_bound_bounds(s, w.id, 0);
}

proof fn lemma_sort_by_id_len(s: Seq<WorkspaceView>)
    ensures
        sort_by_id(s).len() == s.len(),
    decreases s.len(),
{
    if s.len() > 0 {
        lemma_sort_by_id_len(s.drop_last());
        lemma_insert_shape(sort_by_id(s.drop_last()), s.last());
    }
}

/// Sorting keeps a property that every element has.
proof fn lemma_sort_by_id_all(s: Seq<WorkspaceView>, p: spec_fn(WorkspaceView) -> bool)
    requires
        forall|i: int| 0 <= i < s.len() ==> p(#[trigger] s[i]),
    ensures
        forall|i: int| 0 <= i < sort_by_id(s).len() ==> p(#[trigger] sort_by_id(s)[i]),
    decreases s.len(),
{
    if s.len() > 0 {
        let t = s.drop_last();
        assert forall|i: int| 0 <= i < t.len() implies p(#[trigger] t[i]) by {
            assert(t[i] == s[i]);
        }
        lemma_sort_by_id_all(t, p);
        lemma_sort_by_id_len(t);
        lemma_insert_shape(sort_by_id(t), s.last());
        let k = upper_bound_from(sort_by_id(t), s.last().id, 0);
        assert forall|i: int| 0 <= i < sort_by_id(s).len() implies p(#[trigger] sort_by_id(s)[i]) by {
            if i < k {
                assert(sort_by_id(s)[i] == sort_by_id(t)[i]);
            } else if i > k {
                assert(sort_by_id(s)[i] == sort_by_id(t)[i - 1]);
            }
        }
    }
}

/// Two sequences with the same ids find the same first index for an id.
proof fn lemma_first_with_id_same_ids(a: Seq<WorkspaceView>, b: Seq<WorkspaceView>, id: i32, i: int)
    requires
        a.len() == b.len(),
        forall|k: int| 0 <= k < a.len() ==> #[trigger] a[k].id == b[k].id,
    ensures
        first_with_id_from(a, id, i) == first_with_id_from(b, id, i),
    decreases a.len() - i,
{
    if i >= 0 && i < a.len() && a[i].id != id {
        lemma_first_with_id_same_ids(a, b, id, i + 1);
    }
}

/// Puts `w` into the id-sorted `ws` as `insert_by_id` does.
fn insert_workspace(ws: &mut Vec<WorkspaceInfo>, w: WorkspaceInfo)
    ensures
        workspace_views(final(ws)@) == insert_by_id(workspace_views(old(ws)@), w@),
{
    let ghost s = workspace_views(ws@);
    let mut k: usize = 0;
    while k < ws.len() && ws[k].id <= w.id
        invariant
            k <= ws@.len(),
            s == workspace_views(ws@),
            upper_bound_from(s, w.id, k as int) == upper_bound_from(s, w.id, 0),
        decreases ws@.len() - k,
    {
        k = k + 1;
    }
    proof {
        lemma_upper_bound_bounds(s, w.id, k as int);
    }
    ws.insert(k, w);
    assert(workspace_views(ws@) =~= s.take(k as int) + seq![w@] + s.skip(k as int));
}

/// Finds the first workspace with the given id.
fn find_workspace(ws: &Vec<WorkspaceInfo>, id: i32) -> (res: Option<usize>)
    ensures
        match res {
            Some(k) => k < ws@.len() && first_with_id(workspace_views(ws@), id) == Some(k as int),
            None => first_with_id(workspace_views(ws@), id) is None,
        },
{
    let ghost s = workspace_views(ws@);
    let mut k: usize = 0;
    while k < ws.len()
        invariant
            k <= ws@.len(),
            s == workspace_views(ws@),
            first_with_id_from(s, id, k as int) == first_with_id(s, id),
        decreases ws@.len() - k,
    {
        if ws[k].id == id {
            return Some(k);
        }
        k = k + 1;
    }
    None
}

/// The workspace id of a client object, as `client_workspace` says.
fn client_workspace_exec(cj: &[char]) -> (res: i32)
    ensures
        res == client_workspace(cj@),
{
    let direct = #[verifier::truncate] (json_int(cj, "workspace") as i32);
    if direct != 0 {
        return direct;
    }
    let nd = make_needle("workspace");
    match find_chars_from(cj, nd.as_slice(), 0) {
        None => 0,
        Some(pos) => {
            proof {
                lemma_find_from(cj@, nd@, 0);
            }
            match find_char_from(cj, '{', pos) {
                None => 0,
                Some(b) => {
                    proof {
                        lemma_find_from(cj@, seq!['{'], pos as int);
                    }
                    match find_char_from(cj, '}', b) {
                        None => 0,
                        Some(e) => {
                            proof {
                                lemma_find_from(cj@, seq!['}'], b as int);
                            }
                            let inner = copy_range(cj, b, e + 1);
                            #[verifier::truncate] (json_int(inner.as_slice(), "id") as i32)
                        },
                    }
                },
            }
        },
    }
}

/// The client a client object describes.
fn client_from_object(cj: &[char]) -> (res: ClientInfo)
    ensures
        res@ == client_of(cj@),
{
    let workspace_id = client_workspace_exec(cj);
    let (x, y) = parse_array_pair(cj, "at");
    let (w, h) = parse_array_pair(cj, "size");
    let class_name = json_string(cj, "class");
    let title = json_string(cj, "title");
    ClientInfo {
        class_name: string_from_chars(class_name.as_slice()),
        title: string_from_chars(title.as_slice()),
        address: parse_address(cj),
        workspace_id,
        x,
        y,
        w,
        h,
    }
}

/// The workspaces and their windows, from the replies to `j/workspaces`
/// and `j/clients`: regular workspaces only, sorted by id, each with the
/// clients that name it in reply order.
pub fn get_workspaces(ws_json: &str, cl_json: &str) -> (res: Vec<WorkspaceInfo>)
    ensures
        workspace_views(res@) == workspaces_from(ws_json@, cl_json@),
{
    let ws = to_chars(ws_json);
    let cl = to_chars(cl_json);
    let ws_objs = json_array_objects(ws.as_slice());
    let cl_objs = json_array_objects(cl.as_slice());
    let ghost listed_all = objects(ws@).map_values(|wj: Seq<char>| workspace_of(wj));
    let ghost regular = |w: WorkspaceView| is_regular(w);

    let mut workspaces: Vec<WorkspaceInfo> = Vec::new();
    let mut j: usize = 0;
    while j < ws_objs.len()
        invariant
            j <= ws_objs@.len(),
            char_vec_views(ws_objs@) == objects(ws@),
            listed_all == objects(ws@).map_values(|wj: Seq<char>| workspace_of(wj)),
            regular == (|w: WorkspaceView| is_regular(w)),
            workspace_views(workspaces@) == sort_by_id(
                listed_all.take(j as int).filter(regular),
            ),
            forall|k: int| 0 <= k < workspaces@.len() ==> (#[trigger] workspaces@[k]).clients@.len()
                == 0,
        decreases ws_objs@.len() - j,
    {
        let wj = ws_objs[j].as_slice();
        assert(wj@ == objects(ws@)[j as int]);
        let id = #[verifier::truncate] (json_int(wj, "id") as i32);
        assert(listed_all.take(j + 1) =~= listed_all.take(j as int).push(workspace_of(wj@)));
        proof {
            listed_all.take(j as int).lemma_filter_push(workspace_of(wj@), regular);
        }
        if id >= 1 {
            let name = json_string(wj, "name");
            let monitor_id = #[verifier::truncate] (json_int(wj, "monitorID") as i32);
            let w = WorkspaceInfo {
                id,
                name: string_from_chars(name.as_slice()),
                monitor_id,
                clients: Vec::new(),
            };
            assert(w@ =~= workspace_of(wj@));
            let ghost prev = listed_all.take(j as int).filter(regular);
            assert(listed_all.take(j + 1).filter(regular) =~= prev.push(w@));
            assert(prev.push(w@).drop_last() =~= prev);
            let ghost old_ws = workspaces@;
            insert_workspace(&mut workspaces, w);
            assert forall|k: int| 0 <= k < workspaces@.len() implies (
            #[trigger] workspaces@[k]).clients@.len() == 0 by {
                assert(workspace_views(workspaces@)[k].clients.len() == workspaces@[k].clients@.len());
                lemma_insert_shape(workspace_views(old_ws), w@);
                let kk = upper_bound_from(workspace_views(old_ws), w@.id, 0);
                if k < kk {
                    assert(workspace_views(old_ws)[k].clients.len() == old_ws[k].clients@.len());
                } else if k > kk {
                    assert(workspace_views(old_ws)[k - 1].clients.len() == old_ws[k - 1].clients@.len());
                }
            }
        } else {
            assert(listed_all.take(j + 1).filter(regular) =~= listed_all.take(j as int).filter(
                regular,
            ));
        }
        j = j + 1;
    }
    assert(listed_all.take(j as int) =~= listed_all);
    let ghost sorted = workspace_views(workspaces@);
    let ghost all_clients = objects(cl@).map_values(|cj: Seq<char>| client_of(cj));
    assert(assign_clients(sorted, all_clients.take(0)) =~= sorted) by {
        assert forall|k: int| 0 <= k < sorted.len() implies (#[trigger] sorted[k]).clients
            + all_clients.take(0).filter(
            |c: ClientView| first_with_id(sorted, c.workspace_id) == Some(k),
        ) =~= sorted[k].clients by {
            assert(all_clients.take(0).filter(
                |c: ClientView| first_with_id(sorted, c.workspace_id) == Some(k),
            ) =~= Seq::<ClientView>::empty());
        }
    }

    let mut i: usize = 0;
    while i < cl_objs.len()
        invariant
            i <= cl_objs@.len(),
            char_vec_views(cl_objs@) == objects(cl@),
            all_clients == objects(cl@).map_values(|cj: Seq<char>| client_of(cj)),
            sorted.len() == workspaces@.len(),
            forall|k: int| 0 <= k < sorted.len() ==> #[trigger] workspaces@[k].id == sorted[k].id,
            workspace_views(workspaces@) == assign_clients(sorted, all_clients.take(i as int)),
        decreases cl_objs@.len() - i,
    {
        let cj = cl_objs[i].as_slice();
        assert(cj@ == objects(cl@)[i as int]);
        let ci = client_from_object(cj);
        assert(all_clients.take(i + 1) =~= all_clients.take(i as int).push(ci@));
        let ghost before = workspace_views(workspaces@);
        assert forall|k: int| 0 <= k < sorted.len() implies #[trigger] before[k].id
            == sorted[k].id by {}
        assert(first_with_id(before, ci.workspace_id) == first_with_id(sorted, ci.workspace_id))
            by {
            lemma_first_with_id_same_ids(before, sorted, ci.workspace_id, 0);
        }
        let ghost cv = ci@;
        let ghost ci_g = ci;
        match find_workspace(&workspaces, ci.workspace_id) {
            Some(k) => {
                let ghost old_ws = workspaces@;
                workspaces[k].clients.push(ci);
                proof {
                    assert forall|m: int| 0 <= m < sorted.len() implies (#[trigger] workspace_views(
                        workspaces@,
                    )[m]) =~= assign_clients(sorted, all_clients.take(i + 1))[m] by {
                        let p = |c: ClientView| first_with_id(sorted, c.workspace_id) == Some(m);
                        all_clients.take(i as int).lemma_filter_push(cv, p);
                        if m == k {
                            assert(workspaces@[m].clients@ == old_ws[m].clients@.push(ci_g));
                            assert(workspaces@[m].id == old_ws[m].id);
                            assert(workspaces@[m].name == old_ws[m].name);
                            assert(workspaces@[m].monitor_id == old_ws[m].monitor_id);
                            assert(client_views(workspaces@[m].clients@) =~= client_views(
                                old_ws[m].clients@,
                            ).push(cv));
                            assert(p(cv));
                            assert(all_clients.take(i + 1).filter(p) == all_clients.take(i as int).filter(p).push(cv));
                            assert(workspace_views(old_ws)[m].clients =~= sorted[m].clients + all_clients.take(i as int).filter(p));
                            assert(workspace_views(workspaces@)[m].clients =~= assign_clients(sorted, all_clients.take(i + 1))[m].clients);
                            assert(workspace_views(old_ws)[m].name == sorted[m].name);
                            assert(workspace_views(old_ws)[m].monitor_id == sorted[m].monitor_id);
                            assert(workspace_views(workspaces@)[m] =~= assign_clients(sorted, all_clients.take(i + 1))[m]);
                        } else {
                            assert(workspaces@[m] == old_ws[m]);
                            assert(!p(cv));
                            assert(workspace_views(old_ws)[m] == assign_clients(sorted, all_clients.take(i as int))[m]);
                            assert(workspace_views(workspaces@)[m] == workspace_views(old_ws)[m]);
                            assert(all_clients.take(i + 1).filter(p) == all_clients.take(i as int).filter(p));
                            assert(workspace_views(workspaces@)[m] =~= assign_clients(sorted, all_clients.take(i + 1))[m]);
                        }
                    }
                    assert(workspace_views(workspaces@) =~= assign_clients(
                        sorted,
                        all_clients.take(i + 1),
                    ));
                }
            },
            None => {
                proof {
                    assert forall|m: int| 0 <= m < sorted.len() implies (#[trigger] workspace_views(
                        workspaces@,
                    )[m]) =~= assign_clients(sorted, all_clients.take(i + 1))[m] by {
                        let p = |c: ClientView| first_with_id(sorted, c.workspace_id) == Some(m);
                        all_clients.take(i as int).lemma_filter_push(cv, p);
                    }
                    assert(workspace_views(workspaces@) =~= assign_clients(
                        sorted,
                        all_clients.take(i + 1),
                    ));
                }
            },
        }
        i = i + 1;
    }
    assert(all_clients.take(i as int) =~= all_clients);
    workspaces
}


// ── laws of the workspace list ──────────────────────────────────────────────

/// What `upper_bound_from` finds: everything before it has an id at most
/// `id`, and the element at it (if any) has a greater id.
proof fn lemma_upper_bound(s: Seq<WorkspaceView>, id: i32, i: int)
    requires
        0 <= i <= s.len(),
        forall|j: int| 0 <= j < i ==> (#[trigger] s[j]).id <= id,
    ensures
        ({
            let k = upper_bound_from(s, id, i);
            &&& i <= k <= s.len()
            &&& forall|j: int| 0 <= j < k ==> (#[trigger] s[j]).id <= id
            &&& k < s.len() ==> s[k].id > id
        }),
    decreases s.len() - i,
{
    if i < s.len() && s[i].id <= id {
        lemma_upper_bound(s, id, i + 1);
    }
}

pub open spec fn sorted_by_id(s: Seq<WorkspaceView>) -> bool {
    forall|i: int, j: int| 0 <= i < j < s.len() ==> (#[trigger] s[i]).id <= (#[trigger] s[j]).id
}

pub open spec fn has_id(id: i32) -> spec_fn(WorkspaceView) -> bool {
    |w: WorkspaceView| w.id == id
}

/// `sort_by_id` orders by id: each workspace's id is at most the next one's.
pub proof fn lemma_sort_by_id_sorted(s: Seq<WorkspaceView>)
    ensures
        sorted_by_id(sort_by_id(s)),
        sort_by_id(s).len() == s.len(),
    decreases s.len(),
{
    lemma_sort_by_id_len(s);
    if s.len() > 0 {
        let t = sort_by_id(s.drop_last());
        let w = s.last();
        lemma_sort_by_id_sorted(s.drop_last());
        lemma_upper_bound(t, w.id, 0);
        lemma_insert_shape(t, w);
        let k = upper_bound_from(t, w.id, 0);
        let r = sort_by_id(s);
        assert forall|i: int, j: int| 0 <= i < j < r.len() implies (#[trigger] r[i]).id <= (
        #[trigger] r[j]).id by {
            if j < k {
                assert(r[i] == t[i] && r[j] == t[j]);
            } else if j == k {
                assert(r[i] == t[i]);
            } else if i < k {
                assert(r[i] == t[i] && r[j] == t[j - 1]);
                assert(t[i].id <= t[j - 1].id);
            } else if i == k {
                assert(r[j] == t[j - 1]);
                assert(t[k].id <= t[j - 1].id);
            } else {
                assert(r[i] == t[i - 1] && r[j] == t[j - 1]);
            }
        }
    }
}

/// `sort_by_id` is stable: the workspaces with any one id keep their
/// relative order, and none is lost or added.
pub proof fn lemma_sort_by_id_stable(s: Seq<WorkspaceView>, id: i32)
    ensures
        sort_by_id(s).filter(has_id(id)) == s.filter(has_id(id)),
    decreases s.len(),
{
    if s.len() > 0 {
        let d = s.drop_last();
        let t = sort_by_id(d);
        let w = s.last();
        let q = has_id(id);
        lemma_sort_by_id_stable(d, id);
        lemma_sort_by_id_sorted(d);
        lemma_upper_bound(t, w.id, 0);
        let k = upper_bound_from(t, w.id, 0);
        assert(s =~= d.push(w));
        d.lemma_filter_push(w, q);
        assert(t =~= t.take(k) + t.skip(k));
        Seq::filter_distributes_over_add(t.take(k), t.skip(k), q);
        Seq::filter_distributes_over_add(t.take(k) + seq![w], t.skip(k), q);
        Seq::filter_distributes_over_add(t.take(k), seq![w], q);
        assert(sort_by_id(s) == t.take(k) + seq![w] + t.skip(k));
        if w.id == id {
            assert forall|j: int| 0 <= j < t.skip(k).len() implies !q(#[trigger] t.skip(k)[j]) by {
                assert(t.skip(k)[j] == t[k + j]);
                assert(t[k].id <= t[k + j].id);
            }
            t.skip(k).lemma_all_neg_filter_empty(q);
            assert(t.skip(k).filter(q) =~= Seq::<WorkspaceView>::empty());
            seq![w].lemma_filter_push(w, q);
            assert(seq![w] =~= Seq::<WorkspaceView>::empty().push(w));
            assert(seq![w].filter(q) =~= seq![w]) by {
                Seq::<WorkspaceView>::empty().lemma_filter_push(w, q);
                assert(Seq::<WorkspaceView>::empty().filter(q) =~= Seq::<WorkspaceView>::empty())
                    by {
                    Seq::<WorkspaceView>::empty().lemma_all_neg_filter_empty(q);
                }
            }
            assert(sort_by_id(s).filter(q) =~= t.take(k).filter(q) + seq![w] + Seq::empty());
            assert(t.filter(q) == t.take(k).filter(q) + t.skip(k).filter(q));
        } else {
            assert(seq![w].filter(q) =~= Seq::<WorkspaceView>::empty()) by {
                Seq::<WorkspaceView>::empty().lemma_filter_push(w, q);
                assert(seq![w] =~= Seq::<WorkspaceView>::empty().push(w));
                assert(Seq::<WorkspaceView>::empty().filter(q) =~= Seq::<WorkspaceView>::empty())
                    by {
                    Seq::<WorkspaceView>::empty().lemma_all_neg_filter_empty(q);
                }
            }
            assert(sort_by_id(s).filter(q) =~= t.take(k).filter(q) + t.skip(k).filter(q));
            assert(t.filter(q) == t.take(k).filter(q) + t.skip(k).filter(q));
        }
    }
}

/// A property of every element holds of every element that a filter keeps.
proof fn lemma_filter_keeps<A>(s: Seq<A>, p: spec_fn(A) -> bool, q: spec_fn(A) -> bool)
    requires
        forall|i: int| 0 <= i < s.len() ==> q(#[trigger] s[i]),
    ensures
        forall|i: int| 0 <= i < s.filter(p).len() ==> q(#[trigger] s.filter(p)[i]),
    decreases s.len(),
{
    if s.len() > 0 {
        let d = s.drop_last();
        assert(s =~= d.push(s.last()));
        lemma_filter_keeps(d, p, q);
        d.lemma_filter_push(s.last(), p);
    } else {
        s.lemma_all_neg_filter_empty(p);
    }
}

proof fn lemma_first_with_id_from(ws: Seq<WorkspaceView>, id: i32, i: int)
    requires
        0 <= i,
    ensures
        match first_with_id_from(ws, id, i) {
            Some(k) => i <= k < ws.len() && ws[k].id == id && forall|j: int|
                i <= j < k ==> (#[trigger] ws[j]).id != id,
            None => forall|j: int| i <= j < ws.len() ==> (#[trigger] ws[j]).id != id,
        },
    decreases ws.len() - i,
{
    if i < ws.len() && ws[i].id != id {
        lemma_first_with_id_from(ws, id, i + 1);
        if let Some(k) = first_with_id_from(ws, id, i + 1) {
            assert forall|j: int| i <= j < k implies (#[trigger] ws[j]).id != id by {
                if j == i {
                } else {
                }
            }
        }
    }
}

/// The workspaces that `get_workspaces` reports are all regular (id at
/// least 1), come in ascending order of id, and every window listed under a
/// workspace names that workspace.
pub proof fn lemma_workspaces_from(ws_json: Seq<char>, cl_json: Seq<char>)
    ensures
        ({
            let r = workspaces_from(ws_json, cl_json);
            &&& forall|k: int| 0 <= k < r.len() ==> (#[trigger] r[k]).id >= 1
            &&& sorted_by_id(r)
            &&& forall|k: int, j: int|
                0 <= k < r.len() && 0 <= j < r[k].clients.len() ==> (#[trigger] r[k].clients[j]).workspace_id
                    == r[k].id
        }),
{
    let listed = listed_workspaces(ws_json);
    let sorted = sort_by_id(listed);
    let cs = objects(cl_json).map_values(|cj: Seq<char>| client_of(cj));
    let r = workspaces_from(ws_json, cl_json);
    let regular = |w: WorkspaceView| is_regular(w);
    assert forall|i: int| 0 <= i < listed.len() implies regular(#[trigger] listed[i]) by {
        objects(ws_json).map_values(|wj: Seq<char>| workspace_of(wj)).lemma_filter_pred(regular, i);
    }
    lemma_sort_by_id_all(listed, regular);
    let empty = |w: WorkspaceView| w.clients.len() == 0;
    lemma_filter_keeps(objects(ws_json).map_values(|wj: Seq<char>| workspace_of(wj)), regular, empty);
    lemma_sort_by_id_all(listed, empty);
    lemma_sort_by_id_sorted(listed);
    assert forall|k: int, j: int|
        0 <= k < r.len() && 0 <= j < r[k].clients.len() implies (#[trigger] r[k].clients[j]).workspace_id
        == r[k].id by {
        let p = |c: ClientView| first_with_id(sorted, c.workspace_id) == Some(k);
        cs.lemma_filter_pred(p, j);
        lemma_first_with_id_from(sorted, cs.filter(p)[j].workspace_id, 0);
    }
    assert forall|i: int, j: int| 0 <= i < j < r.len() implies (#[trigger] r[i]).id <= (
    #[trigger] r[j]).id by {
        assert(r[i].id == sorted[i].id && r[j].id == sorted[j].id);
    }
}

/// Whether `k` is the first workspace of `r` whose id is `id`.
pub open spec fn first_index_with_id(r: Seq<WorkspaceView>, k: int, id: i32) -> bool {
    &&& 0 <= k < r.len()
    &&& r[k].id == id
    &&& forall|j: int| 0 <= j < k ==> (#[trigger] r[j]).id != id
}

/// No window is lost or added: the windows under each reported workspace
/// are exactly the client objects of the `j/clients` reply whose workspace
/// id first matches that workspace, all of them, in reply order.
pub proof fn lemma_workspaces_hold_all_their_clients(ws_json: Seq<char>, cl_json: Seq<char>)
    ensures
        ({
            let r = workspaces_from(ws_json, cl_json);
            let cs = objects(cl_json).map_values(|cj: Seq<char>| client_of(cj));
            forall|k: int|
                0 <= k < r.len() ==> (#[trigger] r[k]).clients == cs.filter(
                    |c: ClientView| first_index_with_id(r, k, c.workspace_id),
                )
        }),
{
    let listed = listed_workspaces(ws_json);
    let sorted = sort_by_id(listed);
    let cs = objects(cl_json).map_values(|cj: Seq<char>| client_of(cj));
    let r = workspaces_from(ws_json, cl_json);
    let regular = |w: WorkspaceView| is_regular(w);
    let empty = |w: WorkspaceView| w.clients.len() == 0;
    lemma_filter_keeps(objects(ws_json).map_values(|wj: Seq<char>| workspace_of(wj)), regular, empty);
    lemma_sort_by_id_all(listed, empty);
    assert forall|k: int| 0 <= k < r.len() implies (#[trigger] r[k]).clients == cs.filter(
        |c: ClientView| first_index_with_id(r, k, c.workspace_id),
    ) by {
        let p = |c: ClientView| first_with_id(sorted, c.workspace_id) == Some(k);
        let q = |c: ClientView| first_index_with_id(r, k, c.workspace_id);
        assert(r.len() == sorted.len());
        assert forall|j: int| 0 <= j < r.len() implies (#[trigger] r[j]).id == sorted[j].id by {}
        assert forall|c: ClientView| #[trigger] p(c) == q(c) by {
            lemma_first_with_id_from(sorted, c.workspace_id, 0);
            if q(c) {
                match first_with_id(sorted, c.workspace_id) {
                    Some(m) => {
                        if m < k {
                            assert(r[m].id == sorted[m].id);
                        } else if m > k {
                            assert(sorted[k].id == r[k].id);
                        }
                    },
                    None => {
                        assert(sorted[k].id == r[k].id);
                    },
                }
            }
            if p(c) {
                assert forall|j: int| 0 <= j < k implies (#[trigger] r[j]).id != c.workspace_id by {
                    assert(r[j].id == sorted[j].id);
                }
            }
        }
        assert(p =~= q);
        assert(sorted[k].clients.len() == 0);
        assert(r[k].clients =~= cs.filter(p));
    }
}

// ── requests and single-value replies ──────────────────────────────────────

/// The message that focuses workspace `id` (to Hyprland's request socket).
pub open spec fn switch_message(id: i32) -> Seq<char> {
    "/dispatch hl.dsp.focus({ workspace = \""@ + decimal_text(id as int) + "\" })"@
}

/// The message that moves the window at `window_address` to workspace
/// `workspace_id` without following it.
pub open spec fn move_message(window_address: u64, workspace_id: i32) -> Seq<char> {
    "/dispatch hl.dsp.window.move({ workspace = "@ + decimal_text(workspace_id as int)
        + ", window = \"address:0x"@ + hex_text(window_address as nat)
        + "\", silent = true })"@
}

/// The dispatch message that focuses workspace `id`.
pub fn switch_workspace(id: i32) -> (res: String)
    ensures
        res@ == switch_message(id),
{
    let mut m = to_chars("/dispatch hl.dsp.focus({ workspace = \"");
    let d = format_decimal(id as i64);
    push_all(&mut m, d.as_slice());
    let tail = to_chars("\" })");
    push_all(&mut m, tail.as_slice());
    string_from_chars(m.as_slice())
}

/// The dispatch message that moves a window to a workspace, silently.
pub fn move_window_to_workspace(window_address: u64, workspace_id: i32) -> (res: String)
    ensures
        res@ == move_message(window_address, workspace_id),
{
    let mut m = to_chars("/dispatch hl.dsp.window.move({ workspace = ");
    let d = format_decimal(workspace_id as i64);
    push_all(&mut m, d.as_slice());
    let mid = to_chars(", window = \"address:0x");
    push_all(&mut m, mid.as_slice());
    let h = format_hex(window_address);
    push_all(&mut m, h.as_slice());
    let tail = to_chars("\", silent = true })");
    push_all(&mut m, tail.as_slice());
    string_from_chars(m.as_slice())
}

/// The name of the focused workspace, from the reply to `j/activeworkspace`.
pub fn get_active_workspace_name(json: &str) -> (res: String)
    ensures
        res@ == string_field(json@, "name"@),
{
    let cs = to_chars(json);
    let name = json_string(cs.as_slice(), "name");
    string_from_chars(name.as_slice())
}

/// The focused window's address in a `j/activewindow` reply: 0 when the
/// reply is `{}` (no window focused), else its `address` field.
pub open spec fn active_window_address(json: Seq<char>) -> u64 {
    if trim(json) == seq!['{', '}'] {
        0
    } else {
        address_field(json)
    }
}

/// The address of the focused window, or 0 if none.
pub fn get_active_window_address(json: &str) -> (res: u64)
    ensures
        res == active_window_address(json@),
{
    let cs = to_chars(json);
    let t = trim_exec(cs.as_slice());
    let empty = vec!['{', '}'];
    assert(empty@ =~= seq!['{', '}']);
    if chars_eq(t.as_slice(), empty.as_slice()) {
        return 0;
    }
    parse_address(cs.as_slice())
}

} // verus!
