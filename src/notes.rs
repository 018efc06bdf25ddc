//! The notes view of a tree: a note for every file or directory with
//! metadata, and for each listed directory its items sorted by path.
use crate::arena::ArenaSlot;
use crate::files::{from_node, record_of, FileMetaData};
use crate::paths::{file_stem_of, path_file_stem};
use crate::tree::node::Node;
use crate::tree::{edge_ok, ranked, Tree};
use chrono::{SecondsFormat, TimeZone, Utc};
use vstd::prelude::*;

verus! {

broadcast use vstd::seq_lib::group_to_multiset_ensures;

/// A note: a file or directory of the notes folder. Its id is its path.
#[derive(Clone, Debug)]
pub struct NoteData {
    pub id: String,
    pub title: String,
    pub content: String,
    pub file_path: String,
    pub cover: String,
    pub created_at: String,
    pub updated_at: String,
    pub is_daily: bool,
    pub is_dir: bool,
}

/// An entry of a directory's listing in the notes tree.
#[derive(Clone, Debug)]
pub struct NoteTreeItem {
    pub id: String,
    pub title: String,
    pub created_at: String,
    pub updated_at: String,
    pub is_dir: bool,
}

/// What chrono gives as the RFC 3339 text, in UTC with milliseconds, of a
/// number of milliseconds since the Unix epoch; none out of its range.
pub uninterp spec fn rfc3339_of(ms: int) -> Option<Seq<char>>;

/// Relies on chrono's `Utc.timestamp_millis_opt(..).earliest()` and
/// `DateTime::to_rfc3339_opts(SecondsFormat::Millis, true)`: the text depends
/// on the number alone, and there is none where chrono cannot represent it.
#[verifier::external_body]
fn rfc3339_millis(ms: i64) -> (r: Option<String>)
    ensures
        r matches Some(s) ==> rfc3339_of(ms as int) == Some(s@),
        r is None ==> rfc3339_of(ms as int) is None,
{
    match Utc.timestamp_millis_opt(ms).earliest() {
        Some(t) => Some(t.to_rfc3339_opts(SecondsFormat::Millis, true)),
        None => None,
    }
}

/// `a` sorts before `b` as `String`s do: by code points, a proper prefix
/// first (UTF-8 keeps the order of code points).
pub open spec fn id_lt(a: Seq<char>, b: Seq<char>) -> bool
    decreases a.len(),
{
    if a.len() == 0 {
        b.len() > 0
    } else if b.len() == 0 {
        false
    } else if a[0] != b[0] {
        (a[0] as u32) < (b[0] as u32)
    } else {
        id_lt(a.drop_first(), b.drop_first())
    }
}

/// Relies on `slice::sort_by` comparing ids with `String::cmp`: the items
/// are rearranged into the order of their ids.
#[verifier::external_body]
fn sort_by_id(items: &mut Vec<NoteTreeItem>)
    ensures
        final(items)@.to_multiset() == old(items)@.to_multiset(),
        forall|i: int, j: int|
            0 <= i < j < final(items)@.len() ==> !id_lt(
                #[trigger] final(items)@[j].id@,
                #[trigger] final(items)@[i].id@,
            ),
{
    items.sort_by(|a, b| a.id.cmp(&b.id));
}

/// The text of a time in milliseconds: its RFC 3339 text, or `now` where it
/// cannot be represented.
pub open spec fn date_of(ms: u64, now: Seq<char>) -> Seq<char> {
    if ms <= i64::MAX {
        match rfc3339_of(ms as int) {
            Some(d) => d,
            None => now,
        }
    } else {
        now
    }
}

/// The title of a note: its file name without extension.
pub open spec fn title_of(name: Seq<char>) -> Seq<char> {
    match file_stem_of(name) {
        Some(s) => s,
        None => Seq::empty(),
    }
}

/// The captured text of an entry, empty where there is none.
pub open spec fn text_of(node: Node) -> Seq<char> {
    match node.file_text {
        Some(t) => t@,
        None => Seq::empty(),
    }
}

/// `note` is the note of the entry `node`, which has metadata.
pub open spec fn note_ok(note: NoteData, node: Node, now: Seq<char>) -> bool {
    &&& node.file_meta matches Some(m)
    &&& note.id@ == node.path@
    &&& note.file_path@ == node.path@
    &&& note.title@ == title_of(node.file_name@)
    &&& note.content@ == if m.is_dir {
        Seq::empty()
    } else {
        text_of(node)
    }
    &&& note.created_at@ == date_of(m.created, now)
    &&& note.updated_at@ == date_of(m.modified, now)
    &&& note.cover@ == Seq::<char>::empty()
    &&& !note.is_daily
    &&& note.is_dir == m.is_dir
}

/// `item` is the listing item of the entry `node`, which has metadata.
pub open spec fn item_ok(item: NoteTreeItem, node: Node, now: Seq<char>) -> bool {
    &&& node.file_meta matches Some(m)
    &&& item.id@ == node.path@
    &&& item.title@ == title_of(node.file_name@)
    &&& item.created_at@ == date_of(m.created, now)
    &&& item.updated_at@ == date_of(m.modified, now)
    &&& item.is_dir == m.is_dir
}

/// Node `id` of `s` has metadata.
pub open spec fn has_meta(s: Seq<ArenaSlot>, id: usize) -> bool {
    1 <= id <= s.len() && s[id - 1].data.file_meta is Some
}

/// Node `id` of `s` is a directory.
pub open spec fn is_dir_at(s: Seq<ArenaSlot>, id: usize) -> bool {
    1 <= id <= s.len() && s[id - 1].data.spec_is_dir()
}

/// The nodes that get a note while the children of `id` are gone through
/// from position `k` on: each child with metadata, followed, for a directory,
/// by the nodes below it.
pub open spec fn noted_from(s: Seq<ArenaSlot>, r: Seq<nat>, id: usize, k: int) -> Seq<usize>
    decreases r[id - 1], s[id - 1].children.len() - k,
{
    if 1 <= id <= s.len() && r.len() == s.len() && 0 <= k < s[id - 1].children.len() {
        let c = s[id - 1].children[k];
        let own = if has_meta(s, c) {
            seq![c]
        } else {
            Seq::empty()
        };
        let below = if is_dir_at(s, c) && r[c - 1] < r[id - 1] {
            noted_from(s, r, c, 0)
        } else {
            Seq::empty()
        };
        own + below + noted_from(s, r, id, k + 1)
    } else {
        Seq::empty()
    }
}

/// The nodes that get a listing while the children of `id` are gone through
/// from position `k` on: for each directory child, those below it and then
/// the child itself if it has metadata.
pub open spec fn listed_from(s: Seq<ArenaSlot>, r: Seq<nat>, id: usize, k: int) -> Seq<usize>
    decreases r[id - 1], s[id - 1].children.len() - k,
{
    if 1 <= id <= s.len() && r.len() == s.len() && 0 <= k < s[id - 1].children.len() {
        let c = s[id - 1].children[k];
        let below = if is_dir_at(s, c) && r[c - 1] < r[id - 1] {
            listed_from(s, r, c, 0) + if has_meta(s, c) {
                seq![c]
            } else {
                Seq::<usize>::empty()
            }
        } else {
            Seq::empty()
        };
        below + listed_from(s, r, id, k + 1)
    } else {
        Seq::empty()
    }
}

/// The nodes that get a listing when node `id` is listed: those below it,
/// then itself if it has metadata.
pub open spec fn listed(s: Seq<ArenaSlot>, r: Seq<nat>, id: usize) -> Seq<usize> {
    listed_from(s, r, id, 0) + if has_meta(s, id) {
        seq![id]
    } else {
        Seq::<usize>::empty()
    }
}

/// `item` is the item of one of the first `n` children of node `id`, one
/// that has metadata.
pub open spec fn from_child(item: NoteTreeItem, s: Seq<ArenaSlot>, id: usize, n: int, now: Seq<char>) -> bool {
    exists|k: int|
        0 <= k < n && has_meta(s, #[trigger] s[id - 1].children[k]) && item_ok(
            item,
            s[s[id - 1].children[k] - 1].data,
            now,
        )
}

/// `items` is the listing of node `id`: sorted by id without repeated ids,
/// each the item of a child with metadata, and every such child's path among
/// the ids.
pub open spec fn items_ok(items: Seq<NoteTreeItem>, s: Seq<ArenaSlot>, id: usize, now: Seq<char>) -> bool {
    &&& forall|i: int, j: int|
        0 <= i < j < items.len() ==> !id_lt(#[trigger] items[j].id@, #[trigger] items[i].id@)
    &&& forall|i: int| 0 <= i < items.len() - 1 ==> #[trigger] items[i].id@ != items[i + 1].id@
    &&& forall|i: int|
        0 <= i < items.len() ==> from_child(#[trigger] items[i], s, id, s[id - 1].children.len() as int, now)
    &&& forall|k: int|
        0 <= k < s[id - 1].children.len() && has_meta(s, #[trigger] s[id - 1].children[k]) ==> has_id(
            items,
            s[s[id - 1].children[k] - 1].data.path@,
        )
}

/// Some item of `v` has the id `id`.
pub open spec fn has_id(v: Seq<NoteTreeItem>, id: Seq<char>) -> bool {
    exists|i: int| 0 <= i < v.len() && (#[trigger] v[i]).id@ == id
}

/// An item with the fields of a note.
fn item_of(note: &NoteData) -> (r: NoteTreeItem)
    ensures
        r.id == note.id,
        r.title == note.title,
        r.created_at == note.created_at,
        r.updated_at == note.updated_at,
        r.is_dir == note.is_dir,
{
    NoteTreeItem {
        id: note.id.clone(),
        title: note.title.clone(),
        created_at: note.created_at.clone(),
        updated_at: note.updated_at.clone(),
        is_dir: note.is_dir,
    }
}

impl NoteTreeItem {
    /// A copy of the item.
    pub fn duplicate(&self) -> (r: NoteTreeItem)
        ensures
            r == *self,
    {
        NoteTreeItem {
            id: self.id.clone(),
            title: self.title.clone(),
            created_at: self.created_at.clone(),
            updated_at: self.updated_at.clone(),
            is_dir: self.is_dir,
        }
    }
}

/// The text of the time `ms`, or `now` where it cannot be represented.
pub fn date_text(ms: u64, now: &str) -> (r: String)
    ensures
        r@ == date_of(ms, now@),
{
    if ms <= i64::MAX as u64 {
        match rfc3339_millis(ms as i64) {
            Some(d) => d,
            None => now.to_owned(),
        }
    } else {
        now.to_owned()
    }
}

/// The note of an entry from its record.
pub fn note_of(file: FileMetaData, now: &str) -> (r: NoteData)
    ensures
        r.id@ == file.file_path@,
        r.file_path@ == file.file_path@,
        r.title@ == title_of(file.file_name@),
        r.content@ == if file.is_dir {
            Seq::empty()
        } else {
            file.file_text@
        },
        r.created_at@ == date_of(file.created, now@),
        r.updated_at@ == date_of(file.last_modified, now@),
        r.cover@ == Seq::<char>::empty(),
        !r.is_daily,
        r.is_dir == file.is_dir,
{
    let title = match path_file_stem(file.file_name.as_str()) {
        Some(t) => t,
        None => String::new(),
    };
    NoteData {
        id: file.file_path.clone(),
        title,
        content: if file.is_dir {
            String::new()
        } else {
            file.file_text
        },
        file_path: file.file_path,
        cover: String::new(),
        created_at: date_text(file.created, now),
        updated_at: date_text(file.last_modified, now),
        is_daily: false,
        is_dir: file.is_dir,
    }
}

/// The items sorted by id, keeping the first of each run of equal ids.
pub fn sorted_unique(items: Vec<NoteTreeItem>) -> (r: Vec<NoteTreeItem>)
    ensures
        forall|i: int, j: int| 0 <= i < j < r@.len() ==> !id_lt(#[trigger] r@[j].id@, #[trigger] r@[i].id@),
        forall|i: int| 0 <= i < r@.len() - 1 ==> #[trigger] r@[i].id@ != r@[i + 1].id@,
        forall|i: int| 0 <= i < r@.len() ==> items@.contains(#[trigger] r@[i]),
        forall|j: int| 0 <= j < items@.len() ==> has_id(r@, #[trigger] items@[j].id@),
{
    let ghost items0 = items@;
    let mut sorted = items;
    sort_by_id(&mut sorted);
    let ghost idx: Seq<int> = Seq::empty();
    let mut out: Vec<NoteTreeItem> = Vec::new();
    let mut i: usize = 0;
    while i < sorted.len()
        invariant
            i <= sorted@.len(),
            sorted@.to_multiset() == items0.to_multiset(),
            forall|a: int, b: int|
                0 <= a < b < sorted@.len() ==> !id_lt(#[trigger] sorted@[b].id@, #[trigger] sorted@[a].id@),
            idx.len() == out@.len(),
            forall|a: int| 0 <= a < idx.len() ==> 0 <= #[trigger] idx[a] < i && out@[a] == sorted@[idx[a]],
            forall|a: int, b: int| 0 <= a < b < idx.len() ==> #[trigger] idx[a] < #[trigger] idx[b],
            forall|a: int| 0 <= a < out@.len() - 1 ==> #[trigger] out@[a].id@ != out@[a + 1].id@,
            forall|b: int| 0 <= b < i ==> has_id(out@, #[trigger] sorted@[b].id@),
            i > 0 ==> out@.len() > 0 && out@.last().id@ == sorted@[i - 1].id@,
        decreases sorted@.len() - i,
    {
        let ghost out0 = out@;
        let keep = if out.len() == 0 {
            true
        } else {
            out[out.len() - 1].id != sorted[i].id
        };
        if keep {
            out.push(sorted[i].duplicate());
            proof {
                idx = idx.push(i as int);
            }
        }
        proof {
            assert forall|b: int| 0 <= b < i + 1 implies has_id(out@, #[trigger] sorted@[b].id@) by {
                if b == i {
                    assert(out@[out@.len() - 1].id@ == sorted@[b].id@);
                } else {
                    assert(has_id(out0, sorted@[b].id@));
                    let a = choose|a: int| 0 <= a < out0.len() && (#[trigger] out0[a]).id@ == sorted@[b].id@;
                    assert(out@[a] == out0[a]);
                }
            }
        }
        i = i + 1;
    }
    proof {
        assert forall|a: int, b: int| 0 <= a < b < out@.len() implies !id_lt(#[trigger] out@[b].id@, #[trigger] out@[a].id@) by {
            assert(idx[a] < idx[b]);
        }
        assert forall|a: int| 0 <= a < out@.len() implies items0.contains(#[trigger] out@[a]) by {
            assert(sorted@.contains(sorted@[idx[a]]));
            assert(sorted@.to_multiset().count(out@[a]) > 0);
        }
        assert forall|j: int| 0 <= j < items0.len() implies has_id(out@, #[trigger] items0[j].id@) by {
            assert(items0.contains(items0[j]));
            assert(items0.to_multiset().count(items0[j]) > 0);
            assert(sorted@.contains(items0[j]));
            let b = choose|b: int| 0 <= b < sorted@.len() && sorted@[b] == items0[j];
            assert(has_id(out@, sorted@[b].id@));
        }
    }
    out
}

/// `e` is the listing of node `id`: its path and the items of its children.
pub open spec fn entry_ok(e: (String, Vec<NoteTreeItem>), s: Seq<ArenaSlot>, id: usize, now: Seq<char>) -> bool {
    e.0@ == s[id - 1].data.path@ && items_ok(e.1@, s, id, now)
}

/// Goes through the children of node `root` in order: each child with
/// metadata gets a note, each directory is gone through in turn, and when all
/// children are done `root`, if it has metadata, gets its listing, the items
/// of its children sorted by path. `now` stands in for a time that cannot be
/// represented.
pub fn assemble_note_tree(
    tree: &Tree,
    root: usize,
    now: &str,
    notes: &mut Vec<NoteData>,
    note_tree: &mut Vec<(String, Vec<NoteTreeItem>)>,
)
    requires
        1 <= root <= tree.nodes().len(),
    ensures
        final(notes)@.len() == old(notes)@.len() + noted_from(tree.slots(), tree.ranks(), root, 0).len(),
        forall|q: int| 0 <= q < old(notes)@.len() ==> #[trigger] final(notes)@[q] == old(notes)@[q],
        forall|k: int|
            0 <= k < noted_from(tree.slots(), tree.ranks(), root, 0).len() ==> note_ok(
                #[trigger] final(notes)@[old(notes)@.len() + k],
                tree.slots()[noted_from(tree.slots(), tree.ranks(), root, 0)[k] - 1].data,
                now@,
            ),
        final(note_tree)@.len() == old(note_tree)@.len() + listed(tree.slots(), tree.ranks(), root).len(),
        forall|q: int| 0 <= q < old(note_tree)@.len() ==> #[trigger] final(note_tree)@[q] == old(note_tree)@[q],
        forall|k: int|
            0 <= k < listed(tree.slots(), tree.ranks(), root).len() ==> entry_ok(
                #[trigger] final(note_tree)@[old(note_tree)@.len() + k],
                tree.slots(),
                listed(tree.slots(), tree.ranks(), root)[k],
                now@,
            ),
    decreases tree.ranks()[root - 1],
{
    proof {
        use_type_invariant(tree);
        tree.lemma_ranks();
    }
    let ghost s = tree.slots();
    let ghost r = tree.ranks();
    let ids = tree.children_ids(root);
    let mut items: Vec<NoteTreeItem> = Vec::new();
    let ghost done_n: Seq<usize> = Seq::empty();
    let ghost done_l: Seq<usize> = Seq::empty();
    let mut i: usize = 0;
    while i < ids.len()
        invariant
            i <= ids@.len(),
            ids@ == s[root - 1].children,
            s == tree.slots(),
            r == tree.ranks(),
            tree.wf(),
            ranked(s, r),
            1 <= root <= s.len(),
            notes@.len() == old(notes)@.len() + done_n.len(),
            forall|q: int| 0 <= q < old(notes)@.len() ==> #[trigger] notes@[q] == old(notes)@[q],
            forall|k: int|
                0 <= k < done_n.len() ==> note_ok(
                    #[trigger] notes@[old(notes)@.len() + k],
                    s[done_n[k] - 1].data,
                    now@,
                ),
            done_n + noted_from(s, r, root, i as int) == noted_from(s, r, root, 0),
            note_tree@.len() == old(note_tree)@.len() + done_l.len(),
            forall|q: int| 0 <= q < old(note_tree)@.len() ==> #[trigger] note_tree@[q] == old(note_tree)@[q],
            forall|k: int|
                0 <= k < done_l.len() ==> entry_ok(
                    #[trigger] note_tree@[old(note_tree)@.len() + k],
                    s,
                    done_l[k],
                    now@,
                ),
            done_l + listed_from(s, r, root, i as int) == listed_from(s, r, root, 0),
            forall|a: int| 0 <= a < items@.len() ==> from_child(#[trigger] items@[a], s, root, i as int, now@),
            forall|k: int|
                0 <= k < i && has_meta(s, #[trigger] s[root - 1].children[k]) ==> has_id(
                    items@,
                    s[s[root - 1].children[k] - 1].data.path@,
                ),
        decreases ids@.len() - i,
    {
        let c = ids[i];
        let ghost n0 = notes@;
        let ghost t0 = note_tree@;
        let ghost items0 = items@;
        let ghost d0 = done_n;
        let ghost l0 = done_l;
        proof {
            assert(edge_ok(s, root - 1, s[root - 1].children[i as int]));
            assert(r[s[root - 1].children[i as int] - 1] < r[root - 1]);
        }
        let child = tree.node(c);
        let has = match from_node(child) {
            Some(file) => {
                let note = note_of(file, now);
                items.push(item_of(&note));
                notes.push(note);
                true
            },
            None => false,
        };
        let ghost own: Seq<usize> = if has {
            seq![c]
        } else {
            Seq::empty()
        };
        let ghost n1 = notes@;
        let ghost t1 = note_tree@;
        proof {
            assert(has == has_meta(s, c));
        }
        if child.is_dir() {
            assemble_note_tree(tree, c, now, notes, note_tree);
        }
        proof {
            let go = is_dir_at(s, c) && r[c - 1] < r[root - 1];
            let below_n = if go {
                noted_from(s, r, c, 0)
            } else {
                Seq::<usize>::empty()
            };
            let below_l = if go {
                listed(s, r, c)
            } else {
                Seq::<usize>::empty()
            };
            assert(noted_from(s, r, root, i as int) == own + below_n + noted_from(s, r, root, i + 1));
            assert(listed_from(s, r, root, i as int) == below_l + listed_from(s, r, root, i + 1));
            assert(d0 + own + below_n + noted_from(s, r, root, i + 1) =~= d0 + noted_from(s, r, root, i as int));
            assert(l0 + below_l + listed_from(s, r, root, i + 1) =~= l0 + listed_from(s, r, root, i as int));
            assert(notes@.len() == n1.len() + below_n.len());
            assert(note_tree@.len() == t1.len() + below_l.len());
            assert forall|q: int| 0 <= q < n1.len() implies #[trigger] notes@[q] == n1[q] by {}
            assert forall|q: int| 0 <= q < t1.len() implies #[trigger] note_tree@[q] == t1[q] by {}
            assert forall|k: int| 0 <= k < (d0 + own + below_n).len() implies note_ok(
                #[trigger] notes@[old(notes)@.len() + k],
                s[(d0 + own + below_n)[k] - 1].data,
                now@,
            ) by {
                if k < d0.len() {
                    assert(notes@[old(notes)@.len() + k] == n1[old(notes)@.len() + k]);
                    assert(n1[old(notes)@.len() + k] == n0[old(notes)@.len() + k]);
                } else if k < d0.len() + own.len() {
                    assert(notes@[old(notes)@.len() + k] == n1[old(notes)@.len() + k]);
                } else {
                    let kk = k - d0.len() - own.len();
                    assert(old(notes)@.len() + k == n1.len() + kk);
                }
            }
            assert forall|k: int| 0 <= k < (l0 + below_l).len() implies entry_ok(
                #[trigger] note_tree@[old(note_tree)@.len() + k],
                s,
                (l0 + below_l)[k],
                now@,
            ) by {
                if k < l0.len() {
                    assert(note_tree@[old(note_tree)@.len() + k] == t1[old(note_tree)@.len() + k]);
                } else {
                    let kk = k - l0.len();
                    assert(old(note_tree)@.len() + k == t1.len() + kk);
                }
            }
            assert forall|q: int| 0 <= q < old(notes)@.len() implies #[trigger] notes@[q] == old(notes)@[q] by {
                assert(notes@[q] == n1[q]);
                assert(n1[q] == n0[q]);
            }
            assert forall|q: int| 0 <= q < old(note_tree)@.len() implies #[trigger] note_tree@[q] == old(
                note_tree,
            )@[q] by {
                assert(note_tree@[q] == t1[q]);
            }
            done_n = d0 + own + below_n;
            done_l = l0 + below_l;
            assert forall|a: int| 0 <= a < items@.len() implies from_child(#[trigger] items@[a], s, root, i + 1, now@) by {
                if a < items0.len() {
                    assert(items@[a] == items0[a]);
                    assert(from_child(items0[a], s, root, i as int, now@));
                    let k = choose|k: int|
                        0 <= k < i && has_meta(s, #[trigger] s[root - 1].children[k]) && item_ok(
                            items0[a],
                            s[s[root - 1].children[k] - 1].data,
                            now@,
                        );
                    assert(s[root - 1].children[k] == s[root - 1].children[k]);
                } else {
                    assert(s[root - 1].children[i as int] == c);
                    assert(tree.nodes()[c - 1] == s[c - 1].data);
                    assert(item_ok(items@[a], s[c - 1].data, now@));
                }
            }
            assert forall|k: int| 0 <= k < i + 1 && has_meta(s, #[trigger] s[root - 1].children[k]) implies has_id(
                items@,
                s[s[root - 1].children[k] - 1].data.path@,
            ) by {
                if k < i {
                    let a = choose|a: int| 0 <= a < items0.len() && (#[trigger] items0[a]).id@
                        == s[s[root - 1].children[k] - 1].data.path@;
                    assert(items@[a] == items0[a]);
                } else {
                    assert(items@[items@.len() - 1].id@ == s[c - 1].data.path@);
                }
            }
                }
        i = i + 1;
    }
    proof {
        assert(noted_from(s, r, root, ids@.len() as int) == Seq::<usize>::empty());
        assert(listed_from(s, r, root, ids@.len() as int) == Seq::<usize>::empty());
        assert(done_n =~= done_n + noted_from(s, r, root, ids@.len() as int));
        assert(done_l =~= done_l + listed_from(s, r, root, ids@.len() as int));
    }
    let ghost t2 = note_tree@;
    let root_node = tree.node(root);
    match from_node(root_node) {
        Some(rf) => {
            let ghost items1 = items@;
            let sorted = sorted_unique(items);
            note_tree.push((rf.file_path, sorted));
            proof {
                assert(tree.nodes()[root - 1] == s[root - 1].data);
                let e = note_tree@[note_tree@.len() - 1];
                assert(e.1@ == sorted@);
                assert forall|a: int| 0 <= a < sorted@.len() implies from_child(
                    #[trigger] sorted@[a],
                    s,
                    root,
                    s[root - 1].children.len() as int,
                    now@,
                ) by {
                    assert(items1.contains(sorted@[a]));
                    let b = choose|b: int| 0 <= b < items1.len() && items1[b] == sorted@[a];
                    assert(from_child(items1[b], s, root, i as int, now@));
                }
                assert forall|k: int|
                    0 <= k < s[root - 1].children.len() && has_meta(s, #[trigger] s[root - 1].children[k])
                    implies has_id(sorted@, s[s[root - 1].children[k] - 1].data.path@) by {
                    let a = choose|a: int| 0 <= a < items1.len() && (#[trigger] items1[a]).id@
                        == s[s[root - 1].children[k] - 1].data.path@;
                    assert(has_id(sorted@, items1[a].id@));
                }
                assert(e.0@ == s[root - 1].data.path@);
                assert(items_ok(sorted@, s, root, now@));
                assert(entry_ok(e, s, root, now@));
                assert(listed(s, r, root) == done_l + seq![root]);
                assert forall|k: int| 0 <= k < done_l.len() + 1 implies entry_ok(
                    #[trigger] note_tree@[old(note_tree)@.len() + k],
                    s,
                    (done_l + seq![root])[k],
                    now@,
                ) by {
                    if k < done_l.len() {
                        assert(note_tree@[old(note_tree)@.len() + k] == t2[old(note_tree)@.len() + k]);
                    }
                }
            }
        },
        None => {
            proof {
                assert(tree.nodes()[root - 1] == s[root - 1].data);
                assert(listed(s, r, root) =~= done_l);
            }
        },
    }
}

} // verus!
