//! The history store: a size-bounded, searchable clipboard history with
//! favorites and tags.  Items are kept newest first; capacity eviction
//! prefers old non-favorites and cascades tag associations.

use vstd::prelude::*;
use vstd::string::*;
use vstd::math::min;
use crate::text::{contains_ci, find_ci, lemma_lex_irrefl, lemma_lex_total, lemma_lex_trans,
    lex_lt, str_eq, str_lt, trim_spec, trim_str};
use crate::ClipboardError;

verus! {

/// One persisted history entry, with its tags attached.
pub struct ClipboardItem {
    /// The store-assigned, unique, monotonically growing identifier.
    pub id: i64,
    /// `"text"` or `"file"`.
    pub content_type: String,
    /// The full stored content.
    pub content: String,
    /// The bounded display preview.
    pub preview: String,
    /// Whether the entry is protected from ordinary eviction.
    pub is_favorite: bool,
    /// The names of the tags associated with the entry.
    pub tags: Vec<String>,
    /// The store-assigned insertion timestamp, in milliseconds.
    pub created_at: i64,
}

/// A stored row, without its tags.
struct StoredItem {
    id: i64,
    content_type: String,
    content: String,
    preview: String,
    is_favorite: bool,
    created_at: i64,
}

/// A stored tag row.
struct TagRow {
    id: i64,
    name: String,
}

/// A stored item-tag association.
#[derive(Clone, Copy)]
struct Assoc {
    item_id: i64,
    tag_id: i64,
}

/// The mathematical value of one stored item.
pub ghost struct ItemView {
    pub id: i64,
    pub content_type: Seq<char>,
    pub content: Seq<char>,
    pub preview: Seq<char>,
    pub is_favorite: bool,
    pub created_at: i64,
}

/// The mathematical value of one tag.
pub ghost struct TagView {
    pub id: i64,
    pub name: Seq<char>,
}

/// The mathematical value of the whole store.
pub ghost struct StoreView {
    /// The items, newest first: strictly descending by timestamp, then id.
    pub items: Seq<ItemView>,
    /// The tags, in ascending name order.
    pub tags: Seq<TagView>,
    /// The item-tag associations, in insertion order.
    pub assocs: Seq<(i64, i64)>,
    /// The id the next inserted item receives.
    pub next_item_id: i64,
    /// The id the next created tag receives.
    pub next_tag_id: i64,
}

/// `a` is listed before `b`: strictly newer, with the id breaking ties.
pub open spec fn item_newer(a: ItemView, b: ItemView) -> bool {
    a.created_at > b.created_at || (a.created_at == b.created_at && a.id > b.id)
}

/// The items are strictly ordered newest first.
pub open spec fn items_sorted(items: Seq<ItemView>) -> bool {
    forall|i: int, j: int| 0 <= i < j < items.len() ==> item_newer(items[i], items[j])
}

/// No two items share an id.
pub open spec fn ids_unique(items: Seq<ItemView>) -> bool {
    forall|i: int, j: int|
        0 <= i < j < items.len() ==> (#[trigger] items[i]).id != (#[trigger] items[j]).id
}

/// Some item carries this id.
pub open spec fn has_item_id(items: Seq<ItemView>, id: i64) -> bool {
    exists|i: int| 0 <= i < items.len() && (#[trigger] items[i]).id == id
}

/// Some tag carries this id.
pub open spec fn has_tag_id(tags: Seq<TagView>, id: i64) -> bool {
    exists|i: int| 0 <= i < tags.len() && (#[trigger] tags[i]).id == id
}

/// The index of the item with this id, or `-1`.
pub open spec fn find_item(items: Seq<ItemView>, id: i64) -> int
    decreases items.len(),
{
    if items.len() == 0 {
        -1
    } else if items[0].id == id {
        0
    } else if find_item(items.skip(1), id) < 0 {
        -1
    } else {
        1 + find_item(items.skip(1), id)
    }
}

/// The index of the tag with this name, or `-1`.
pub open spec fn find_tag(tags: Seq<TagView>, name: Seq<char>) -> int
    decreases tags.len(),
{
    if tags.len() == 0 {
        -1
    } else if tags[0].name == name {
        0
    } else if find_tag(tags.skip(1), name) < 0 {
        -1
    } else {
        1 + find_tag(tags.skip(1), name)
    }
}

/// The name of the tag with this id; empty when there is none.
pub open spec fn tag_name_by_id(tags: Seq<TagView>, tid: i64) -> Seq<char>
    decreases tags.len(),
{
    if tags.len() == 0 {
        Seq::empty()
    } else if tags[0].id == tid {
        tags[0].name
    } else {
        tag_name_by_id(tags.skip(1), tid)
    }
}

/// The association pair is present.
pub open spec fn has_assoc(assocs: Seq<(i64, i64)>, item_id: i64, tag_id: i64) -> bool {
    exists|k: int| 0 <= k < assocs.len() && #[trigger] assocs[k] == (item_id, tag_id)
}

/// The tag names of the associations of `id`, in association order.
pub open spec fn tags_of_rec(assocs: Seq<(i64, i64)>, tags: Seq<TagView>, id: i64) -> Seq<
    Seq<char>,
>
    decreases assocs.len(),
{
    if assocs.len() == 0 {
        Seq::empty()
    } else if assocs[0].0 == id {
        seq![tag_name_by_id(tags, assocs[0].1)] + tags_of_rec(assocs.skip(1), tags, id)
    } else {
        tags_of_rec(assocs.skip(1), tags, id)
    }
}

/// The tag names of item `id`.
pub open spec fn spec_tags_of(s: StoreView, id: i64) -> Seq<Seq<char>> {
    tags_of_rec(s.assocs, s.tags, id)
}

/// The public item `c` shows the stored entry `v`, its tags attached.
pub open spec fn item_matches(s: StoreView, c: ClipboardItem, v: ItemView) -> bool {
    &&& c.id == v.id
    &&& c.content_type@ == v.content_type
    &&& c.content@ == v.content
    &&& c.preview@ == v.preview
    &&& c.is_favorite == v.is_favorite
    &&& c.created_at == v.created_at
    &&& c.tags.deep_view() == spec_tags_of(s, v.id)
}

/// The returned list shows exactly the stored entries `vs`, in order.
pub open spec fn items_match(s: StoreView, rs: Seq<ClipboardItem>, vs: Seq<ItemView>) -> bool {
    &&& rs.len() == vs.len()
    &&& forall|k: int| 0 <= k < rs.len() ==> item_matches(s, #[trigger] rs[k], vs[k])
}

/// A requested count clamped to what is available; negative counts as zero.
pub open spec fn clamp_count(limit: i64, avail: int) -> int {
    if limit < 0 {
        0
    } else if limit > avail {
        avail
    } else {
        limit as int
    }
}

/// The page of items `get_items` returns: newest first, `offset` skipped,
/// at most `limit` long.
pub open spec fn spec_get_items(s: StoreView, limit: i64, offset: i64) -> Seq<ItemView> {
    let off = if offset < 0 {
        0
    } else if offset > s.items.len() {
        s.items.len() as int
    } else {
        offset as int
    };
    s.items.subrange(off, off + clamp_count(limit, s.items.len() - off))
}

/// Well-formedness of the store: ordering, uniqueness, id bounds and
/// referential integrity of the associations.
pub open spec fn wf(s: StoreView) -> bool {
    &&& 0 < s.next_item_id
    &&& 0 < s.next_tag_id
    &&& forall|i: int|
        0 <= i < s.items.len() ==> 0 < (#[trigger] s.items[i]).id < s.next_item_id
    &&& items_sorted(s.items)
    &&& ids_unique(s.items)
    &&& s.items.len() < s.next_item_id
    &&& forall|i: int| 0 <= i < s.tags.len() ==> 0 < (#[trigger] s.tags[i]).id < s.next_tag_id
    &&& forall|i: int, j: int|
        0 <= i < j < s.tags.len() ==> lex_lt(
            (#[trigger] s.tags[i]).name,
            (#[trigger] s.tags[j]).name,
        )
    &&& forall|i: int, j: int|
        0 <= i < j < s.tags.len() ==> (#[trigger] s.tags[i]).id != (#[trigger] s.tags[j]).id
    &&& s.tags.len() < s.next_tag_id
    &&& forall|i: int, j: int|
        0 <= i < j < s.assocs.len() ==> #[trigger] s.assocs[i] != #[trigger] s.assocs[j]
    &&& forall|k: int|
        0 <= k < s.assocs.len() ==> has_item_id(s.items, (#[trigger] s.assocs[k]).0)
    &&& forall|k: int| 0 <= k < s.assocs.len() ==> has_tag_id(s.tags, (#[trigger] s.assocs[k]).1)
}

/// What `find_item` finds: a valid index of the id, first of its kind,
/// or `-1` exactly when the id is absent.
pub proof fn lemma_find_item(items: Seq<ItemView>, id: i64)
    ensures
        find_item(items, id) == -1 <==> !has_item_id(items, id),
        find_item(items, id) >= 0 ==> find_item(items, id) < items.len() && items[find_item(
            items,
            id,
        )].id == id,
        find_item(items, id) >= 0 ==> forall|k: int|
            0 <= k < find_item(items, id) ==> (#[trigger] items[k]).id != id,
        find_item(items, id) >= -1,
    decreases items.len(),
{
    if items.len() == 0 {
    } else if items[0].id == id {
    } else {
        lemma_find_item(items.skip(1), id);
        let r = find_item(items.skip(1), id);
        if r >= 0 {
            assert(items.skip(1)[r] == items[r + 1]);
            assert forall|k: int| 0 <= k < r + 1 implies (#[trigger] items[k]).id != id by {
                if k > 0 {
                    assert(items.skip(1)[k - 1] == items[k]);
                }
            }
        } else {
            if has_item_id(items, id) {
                let w = choose|i: int| 0 <= i < items.len() && (#[trigger] items[i]).id == id;
                assert(items.skip(1)[w - 1] == items[w]);
                assert(has_item_id(items.skip(1), id));
            }
        }
    }
}

/// What `find_tag` finds, in the same shape.
pub proof fn lemma_find_tag(tags: Seq<TagView>, name: Seq<char>)
    ensures
        find_tag(tags, name) == -1 <==> !(exists|i: int|
            0 <= i < tags.len() && (#[trigger] tags[i]).name == name),
        find_tag(tags, name) >= 0 ==> find_tag(tags, name) < tags.len() && tags[find_tag(
            tags,
            name,
        )].name == name,
        find_tag(tags, name) >= 0 ==> forall|k: int|
            0 <= k < find_tag(tags, name) ==> (#[trigger] tags[k]).name != name,
        find_tag(tags, name) >= -1,
    decreases tags.len(),
{
    if tags.len() == 0 {
    } else if tags[0].name == name {
    } else {
        lemma_find_tag(tags.skip(1), name);
        let r = find_tag(tags.skip(1), name);
        if r >= 0 {
            assert(tags.skip(1)[r] == tags[r + 1]);
            assert forall|k: int| 0 <= k < r + 1 implies (#[trigger] tags[k]).name != name by {
                if k > 0 {
                    assert(tags.skip(1)[k - 1] == tags[k]);
                }
            }
        } else {
            if exists|i: int| 0 <= i < tags.len() && (#[trigger] tags[i]).name == name {
                let w = choose|i: int| 0 <= i < tags.len() && (#[trigger] tags[i]).name == name;
                assert(tags.skip(1)[w - 1] == tags[w]);
            }
        }
    }
}

/// The embedded history store.
pub struct Database {
    items: Vec<StoredItem>,
    tags: Vec<TagRow>,
    assocs: Vec<Assoc>,
    next_item_id: i64,
    next_tag_id: i64,
}

spec fn rows_view(rows: Seq<StoredItem>) -> Seq<ItemView> {
    Seq::new(
        rows.len(),
        |i: int|
            ItemView {
                id: rows[i].id,
                content_type: rows[i].content_type@,
                content: rows[i].content@,
                preview: rows[i].preview@,
                is_favorite: rows[i].is_favorite,
                created_at: rows[i].created_at,
            },
    )
}

spec fn pairs_view(assocs: Seq<Assoc>) -> Seq<(i64, i64)> {
    Seq::new(assocs.len(), |i: int| (assocs[i].item_id, assocs[i].tag_id))
}

impl View for Database {
    type V = StoreView;

    closed spec fn view(&self) -> StoreView {
        StoreView {
            items: rows_view(self.items@),
            tags: Seq::new(
                self.tags@.len(),
                |i: int| TagView { id: self.tags@[i].id, name: self.tags@[i].name@ },
            ),
            assocs: pairs_view(self.assocs@),
            next_item_id: self.next_item_id,
            next_tag_id: self.next_tag_id,
        }
    }
}

/// The position a new item takes to keep the newest-first order; a fresh
/// id places it before every equally timed entry.
pub open spec fn insert_pos(items: Seq<ItemView>, it: ItemView) -> int
    decreases items.len(),
{
    if items.len() == 0 {
        0
    } else if item_newer(items[0], it) {
        1 + insert_pos(items.skip(1), it)
    } else {
        0
    }
}

/// The store after inserting one item with a fresh id at time `t`.
pub open spec fn spec_add_item(
    s: StoreView,
    content_type: Seq<char>,
    content: Seq<char>,
    preview: Seq<char>,
    t: i64,
) -> StoreView {
    let it = ItemView {
        id: s.next_item_id,
        content_type: content_type,
        content: content,
        preview: preview,
        is_favorite: false,
        created_at: t,
    };
    StoreView {
        items: s.items.insert(insert_pos(s.items, it), it),
        next_item_id: (s.next_item_id + 1) as i64,
        ..s
    }
}

/// How many of the items are not favorites.
pub open spec fn count_nonfav(items: Seq<ItemView>) -> int
    decreases items.len(),
{
    if items.len() == 0 {
        0
    } else {
        (if !items.last().is_favorite {
            1int
        } else {
            0int
        }) + count_nonfav(items.drop_last())
    }
}

/// How many of the items are favorites.
pub open spec fn count_fav(items: Seq<ItemView>) -> int
    decreases items.len(),
{
    if items.len() == 0 {
        0
    } else {
        (if items.last().is_favorite {
            1int
        } else {
            0int
        }) + count_fav(items.drop_last())
    }
}

/// The counts split the items.
pub proof fn lemma_counts(items: Seq<ItemView>)
    ensures
        count_nonfav(items) >= 0,
        count_fav(items) >= 0,
        count_nonfav(items) + count_fav(items) == items.len(),
    decreases items.len(),
{
    if items.len() > 0 {
        lemma_counts(items.drop_last());
    }
}

/// The items after evicting, oldest first, up to `nf` non-favorites and
/// up to `f` favorites.
pub open spec fn drop_oldest(items: Seq<ItemView>, nf: int, f: int) -> Seq<ItemView>
    decreases items.len(),
{
    if items.len() == 0 {
        items
    } else if !items.last().is_favorite && nf > 0 {
        drop_oldest(items.drop_last(), nf - 1, f)
    } else if items.last().is_favorite && f > 0 {
        drop_oldest(items.drop_last(), nf, f - 1)
    } else {
        drop_oldest(items.drop_last(), nf, f).push(items.last())
    }
}

/// What eviction does: how many items leave, that survivors come from the
/// items in their stored order, that favorites are untouched while no
/// favorite eviction is asked, and that once eviction reaches into the
/// favorites no non-favorite survives.
pub proof fn lemma_drop_oldest(items: Seq<ItemView>, nf: int, f: int)
    requires
        nf >= 0,
        f >= 0,
    ensures
        drop_oldest(items, nf, f).len() == items.len() - min(nf, count_nonfav(items)) - min(
            f,
            count_fav(items),
        ),
        forall|x: ItemView| #[trigger]
            drop_oldest(items, nf, f).contains(x) ==> items.contains(x),
        items_sorted(items) ==> items_sorted(drop_oldest(items, nf, f)),
        ids_unique(items) ==> ids_unique(drop_oldest(items, nf, f)),
        f == 0 ==> forall|x: ItemView|
            items.contains(x) && x.is_favorite ==> #[trigger] drop_oldest(
                items,
                nf,
                f,
            ).contains(x),
        nf >= count_nonfav(items) ==> forall|x: ItemView| #[trigger]
            drop_oldest(items, nf, f).contains(x) ==> x.is_favorite,
    decreases items.len(),
{
    lemma_counts(items);
    if items.len() == 0 {
    } else {
        let dl = items.drop_last();
        let last = items.last();
        lemma_counts(dl);
        let res = drop_oldest(items, nf, f);
        assert forall|x: ItemView| #[trigger] dl.contains(x) implies items.contains(x) by {
            let w = choose|k: int| 0 <= k < dl.len() && dl[k] == x;
            assert(items[w] == x);
        }
        if items_sorted(items) {
            assert(items_sorted(dl));
        }
        if ids_unique(items) {
            assert(ids_unique(dl));
        }
        if !last.is_favorite && nf > 0 {
            lemma_drop_oldest(dl, nf - 1, f);
        } else if last.is_favorite && f > 0 {
            lemma_drop_oldest(dl, nf, f - 1);
            if f - 1 == 0 {
            }
        } else {
            lemma_drop_oldest(dl, nf, f);
            let sub = drop_oldest(dl, nf, f);
            assert(res == sub.push(last));
            assert forall|x: ItemView| #[trigger] res.contains(x) implies items.contains(x) by {
                let w = choose|k: int| 0 <= k < res.len() && res[k] == x;
                if w < sub.len() {
                    assert(sub[w] == x);
                    assert(sub.contains(x));
                } else {
                    assert(x == last);
                    assert(items[items.len() - 1] == last);
                }
            }
            if items_sorted(items) {
                assert forall|p: int, q: int| 0 <= p < q < res.len() implies item_newer(
                    res[p],
                    res[q],
                ) by {
                    if q < sub.len() {
                        assert(sub[p] == res[p] && sub[q] == res[q]);
                    } else {
                        assert(res[q] == last);
                        assert(sub[p] == res[p]);
                        assert(sub.contains(sub[p]));
                        let w = choose|k: int| 0 <= k < dl.len() && dl[k] == sub[p];
                        assert(items[w] == sub[p]);
                        assert(item_newer(items[w], items[items.len() - 1]));
                    }
                }
            }
            if ids_unique(items) {
                assert forall|p: int, q: int| 0 <= p < q < res.len() implies (#[trigger] res[p]).id
                    != (#[trigger] res[q]).id by {
                    if q < sub.len() {
                        assert(sub[p] == res[p] && sub[q] == res[q]);
                    } else {
                        assert(res[q] == last);
                        assert(sub[p] == res[p]);
                        assert(sub.contains(sub[p]));
                        let w = choose|k: int| 0 <= k < dl.len() && dl[k] == sub[p];
                        assert(items[w] == sub[p]);
                        assert(items[w].id != items[items.len() - 1].id);
                    }
                }
            }
            if f == 0 {
                assert forall|x: ItemView| items.contains(x) && x.is_favorite implies #[trigger]
                    res.contains(x) by {
                    let w = choose|k: int| 0 <= k < items.len() && items[k] == x;
                    if w == items.len() - 1 {
                        assert(res[res.len() - 1] == x);
                    } else {
                        assert(dl[w] == x);
                        assert(dl.contains(x));
                        assert(sub.contains(x));
                        let v = choose|k: int| 0 <= k < sub.len() && sub[k] == x;
                        assert(res[v] == x);
                    }
                }
            }
            if nf >= count_nonfav(items) {
                assert forall|x: ItemView| #[trigger] res.contains(x) implies x.is_favorite by {
                    let w = choose|k: int| 0 <= k < res.len() && res[k] == x;
                    if w < sub.len() {
                        assert(sub[w] == x);
                        assert(sub.contains(x));
                    } else {
                        assert(x == last);
                    }
                }
            }
        }
        // transfer the favorite-keeping clause through the dropping branches
        if (!last.is_favorite && nf > 0) || (last.is_favorite && f > 0) {
            let sub_nf = if !last.is_favorite {
                nf - 1
            } else {
                nf
            };
            let sub_f = if !last.is_favorite {
                f
            } else {
                f - 1
            };
            assert(res == drop_oldest(dl, sub_nf, sub_f));
            if f == 0 {
                // only a non-favorite was dropped here
                assert forall|x: ItemView| items.contains(x) && x.is_favorite implies #[trigger]
                    res.contains(x) by {
                    let w = choose|k: int| 0 <= k < items.len() && items[k] == x;
                    assert(w < items.len() - 1);
                    assert(dl[w] == x);
                    assert(dl.contains(x));
                }
            }
            if nf >= count_nonfav(items) {
                assert(sub_nf >= count_nonfav(dl));
            }
        }
    }
}

/// The associations whose item survives.
pub open spec fn keep_assocs(assocs: Seq<(i64, i64)>, items: Seq<ItemView>) -> Seq<(i64, i64)>
    decreases assocs.len(),
{
    if assocs.len() == 0 {
        assocs
    } else if has_item_id(items, assocs[0].0) {
        seq![assocs[0]] + keep_assocs(assocs.skip(1), items)
    } else {
        keep_assocs(assocs.skip(1), items)
    }
}

/// Filtering associations keeps them distinct, referencing surviving
/// items and existing tags.
pub proof fn lemma_keep_assocs(assocs: Seq<(i64, i64)>, items: Seq<ItemView>)
    ensures
        forall|x: (i64, i64)| #[trigger]
            keep_assocs(assocs, items).contains(x) ==> assocs.contains(x),
        (forall|i: int, j: int|
            0 <= i < j < assocs.len() ==> #[trigger] assocs[i] != #[trigger] assocs[j])
            ==> (forall|i: int, j: int|
            0 <= i < j < keep_assocs(assocs, items).len() ==> #[trigger] keep_assocs(
                assocs,
                items,
            )[i] != #[trigger] keep_assocs(assocs, items)[j]),
        forall|k: int|
            0 <= k < keep_assocs(assocs, items).len() ==> has_item_id(
                items,
                (#[trigger] keep_assocs(assocs, items)[k]).0,
            ),
    decreases assocs.len(),
{
    if assocs.len() == 0 {
    } else {
        lemma_keep_assocs(assocs.skip(1), items);
        let rest = keep_assocs(assocs.skip(1), items);
        let res = keep_assocs(assocs, items);
        assert forall|x: (i64, i64)| #[trigger] rest.contains(x) implies assocs.contains(x) by {
            assert(assocs.skip(1).contains(x));
            let w = choose|k: int| 0 <= k < assocs.skip(1).len() && assocs.skip(1)[k] == x;
            assert(assocs[w + 1] == x);
        }
        if has_item_id(items, assocs[0].0) {
            assert(res == seq![assocs[0]] + rest);
            assert forall|x: (i64, i64)| #[trigger] res.contains(x) implies assocs.contains(x) by {
                let w = choose|k: int| 0 <= k < res.len() && res[k] == x;
                if w == 0 {
                    assert(assocs[0] == x);
                } else {
                    assert(rest[w - 1] == x);
                    assert(rest.contains(x));
                }
            }
            if forall|i: int, j: int|
                0 <= i < j < assocs.len() ==> #[trigger] assocs[i] != #[trigger] assocs[j] {
                assert forall|i: int, j: int|
                    0 <= i < j < assocs.skip(1).len() implies #[trigger] assocs.skip(1)[i]
                    != #[trigger] assocs.skip(1)[j] by {
                    assert(assocs.skip(1)[i] == assocs[i + 1]);
                    assert(assocs.skip(1)[j] == assocs[j + 1]);
                }
                assert forall|i: int, j: int| 0 <= i < j < res.len() implies #[trigger] res[i]
                    != #[trigger] res[j] by {
                    if i == 0 {
                        assert(res[j] == rest[j - 1]);
                        assert(rest.contains(rest[j - 1]));
                        assert(assocs.skip(1).contains(res[j]));
                        let w = choose|k: int|
                            0 <= k < assocs.skip(1).len() && assocs.skip(1)[k] == res[j];
                        assert(assocs[w + 1] == res[j]);
                        assert(assocs[0] != assocs[w + 1]);
                    } else {
                        assert(res[i] == rest[i - 1]);
                        assert(res[j] == rest[j - 1]);
                    }
                }
            }
        } else {
            assert(res == rest);
        }
    }
}

/// The store after enforcing the capacity bound `max_items`.
pub open spec fn spec_maintain(s: StoreView, max_items: i64) -> StoreView {
    if max_items <= 0 {
        StoreView { items: Seq::empty(), assocs: Seq::empty(), ..s }
    } else if s.items.len() <= max_items {
        s
    } else {
        let overflow = s.items.len() - max_items;
        let nf = min(overflow as int, count_nonfav(s.items));
        let f = overflow - nf;
        let new_items = drop_oldest(s.items, nf, f);
        StoreView { items: new_items, assocs: keep_assocs(s.assocs, new_items), ..s }
    }
}

/// The store after removing every non-favorite; favorites and tags stay.
pub open spec fn spec_clear_non_favorites(s: StoreView) -> StoreView {
    let new_items = drop_oldest(s.items, count_nonfav(s.items), 0);
    StoreView { items: new_items, assocs: keep_assocs(s.assocs, new_items), ..s }
}

/// The store and the written flag after toggling the favorite mark of
/// `id`: flipped when the item exists; an unknown id writes nothing and
/// reports `true`.
pub open spec fn spec_toggle(s: StoreView, id: i64) -> (StoreView, bool) {
    let idx = find_item(s.items, id);
    if idx >= 0 {
        let it = s.items[idx];
        let flipped = ItemView { is_favorite: !it.is_favorite, ..it };
        (StoreView { items: s.items.update(idx, flipped), ..s }, !it.is_favorite)
    } else {
        (s, true)
    }
}

/// The associations that do not belong to item `id`.
pub open spec fn drop_assocs_of(assocs: Seq<(i64, i64)>, id: i64) -> Seq<(i64, i64)>
    decreases assocs.len(),
{
    if assocs.len() == 0 {
        assocs
    } else if assocs[0].0 == id {
        drop_assocs_of(assocs.skip(1), id)
    } else {
        seq![assocs[0]] + drop_assocs_of(assocs.skip(1), id)
    }
}

/// Dropping one item's associations keeps the rest distinct and free of
/// that item.
pub proof fn lemma_drop_assocs_of(assocs: Seq<(i64, i64)>, id: i64)
    ensures
        forall|x: (i64, i64)| #[trigger]
            drop_assocs_of(assocs, id).contains(x) ==> assocs.contains(x),
        (forall|i: int, j: int|
            0 <= i < j < assocs.len() ==> #[trigger] assocs[i] != #[trigger] assocs[j]) ==> (forall|
            i: int,
            j: int,
        |
            0 <= i < j < drop_assocs_of(assocs, id).len() ==> #[trigger] drop_assocs_of(
                assocs,
                id,
            )[i] != #[trigger] drop_assocs_of(assocs, id)[j]),
        forall|k: int|
            0 <= k < drop_assocs_of(assocs, id).len() ==> (#[trigger] drop_assocs_of(
                assocs,
                id,
            )[k]).0 != id,
    decreases assocs.len(),
{
    if assocs.len() == 0 {
    } else {
        lemma_drop_assocs_of(assocs.skip(1), id);
        let rest = drop_assocs_of(assocs.skip(1), id);
        let res = drop_assocs_of(assocs, id);
        assert forall|x: (i64, i64)| #[trigger] rest.contains(x) implies assocs.contains(x) by {
            let w = choose|k: int| 0 <= k < assocs.skip(1).len() && assocs.skip(1)[k] == x;
            assert(assocs[w + 1] == x);
        }
        if assocs[0].0 != id {
            assert(res == seq![assocs[0]] + rest);
            assert forall|x: (i64, i64)| #[trigger] res.contains(x) implies assocs.contains(x) by {
                let w = choose|k: int| 0 <= k < res.len() && res[k] == x;
                if w == 0 {
                    assert(assocs[0] == x);
                } else {
                    assert(rest[w - 1] == x);
                    assert(rest.contains(x));
                }
            }
            if forall|i: int, j: int|
                0 <= i < j < assocs.len() ==> #[trigger] assocs[i] != #[trigger] assocs[j] {
                assert forall|i: int, j: int|
                    0 <= i < j < assocs.skip(1).len() implies #[trigger] assocs.skip(1)[i]
                    != #[trigger] assocs.skip(1)[j] by {
                    assert(assocs.skip(1)[i] == assocs[i + 1]);
                    assert(assocs.skip(1)[j] == assocs[j + 1]);
                }
                assert forall|i: int, j: int| 0 <= i < j < res.len() implies #[trigger] res[i]
                    != #[trigger] res[j] by {
                    if i == 0 {
                        assert(res[j] == rest[j - 1]);
                        assert(rest.contains(rest[j - 1]));
                        assert(assocs.skip(1).contains(res[j]));
                        let w = choose|k: int|
                            0 <= k < assocs.skip(1).len() && assocs.skip(1)[k] == res[j];
                        assert(assocs[w + 1] == res[j]);
                        assert(assocs[0] != assocs[w + 1]);
                    } else {
                        assert(res[i] == rest[i - 1]);
                        assert(res[j] == rest[j - 1]);
                    }
                }
            }
        } else {
            assert(res == rest);
        }
    }
}

/// The store after deleting item `id` and, with it, its associations;
/// deleting an unknown id changes nothing.
pub open spec fn spec_delete(s: StoreView, id: i64) -> StoreView {
    let idx = find_item(s.items, id);
    if idx >= 0 {
        StoreView { items: s.items.remove(idx), assocs: drop_assocs_of(s.assocs, id), ..s }
    } else {
        s
    }
}

/// The store after a full reset: no items, no tags, no associations.
pub open spec fn spec_reset(s: StoreView) -> StoreView {
    StoreView {
        items: Seq::empty(),
        tags: Seq::empty(),
        assocs: Seq::empty(),
        ..s
    }
}

/// The position a new tag takes to keep the name order.
pub open spec fn tag_insert_pos(tags: Seq<TagView>, name: Seq<char>) -> int
    decreases tags.len(),
{
    if tags.len() == 0 {
        0
    } else if lex_lt(tags[0].name, name) {
        1 + tag_insert_pos(tags.skip(1), name)
    } else {
        0
    }
}

proof fn lemma_tag_insert_pos(tags: Seq<TagView>, name: Seq<char>)
    ensures
        0 <= tag_insert_pos(tags, name) <= tags.len(),
        forall|k: int|
            0 <= k < tag_insert_pos(tags, name) ==> lex_lt((#[trigger] tags[k]).name, name),
        tag_insert_pos(tags, name) < tags.len() ==> !lex_lt(
            tags[tag_insert_pos(tags, name)].name,
            name,
        ),
    decreases tags.len(),
{
    if tags.len() > 0 && lex_lt(tags[0].name, name) {
        lemma_tag_insert_pos(tags.skip(1), name);
        let p = tag_insert_pos(tags.skip(1), name);
        assert forall|k: int| 0 <= k < p + 1 implies lex_lt((#[trigger] tags[k]).name, name) by {
            if k > 0 {
                assert(tags.skip(1)[k - 1] == tags[k]);
            }
        }
        if p < tags.len() - 1 {
            assert(tags.skip(1)[p] == tags[p + 1]);
        }
    }
}

/// The store and the tag id after the idempotent upsert of a tag name.
pub open spec fn spec_add_tag(s: StoreView, name: Seq<char>) -> (StoreView, i64) {
    let idx = find_tag(s.tags, name);
    if idx >= 0 {
        (s, s.tags[idx].id)
    } else {
        let tag = TagView { id: s.next_tag_id, name: name };
        (
            StoreView {
                tags: s.tags.insert(tag_insert_pos(s.tags, name), tag),
                next_tag_id: (s.next_tag_id + 1) as i64,
                ..s
            },
            s.next_tag_id,
        )
    }
}

/// After the upsert the returned id names a tag that exists and carries
/// the requested name.
pub proof fn lemma_add_tag_has(s: StoreView, name: Seq<char>)
    ensures
        has_tag_id(spec_add_tag(s, name).0.tags, spec_add_tag(s, name).1),
        exists|i: int|
            0 <= i < spec_add_tag(s, name).0.tags.len() && (#[trigger] spec_add_tag(
                s,
                name,
            ).0.tags[i]).name == name && spec_add_tag(s, name).0.tags[i].id == spec_add_tag(
                s,
                name,
            ).1,
{
    lemma_find_tag(s.tags, name);
    let idx = find_tag(s.tags, name);
    if idx >= 0 {
        assert(spec_add_tag(s, name).0.tags[idx].id == spec_add_tag(s, name).1);
    } else {
        lemma_tag_insert_pos(s.tags, name);
        let p = tag_insert_pos(s.tags, name);
        assert(spec_add_tag(s, name).0.tags[p].id == spec_add_tag(s, name).1);
    }
}

/// The store and whether the item existed, after associating a tag name
/// with an item: the tag is created in any case; the association only
/// when the item exists.
pub open spec fn spec_add_item_tag(s: StoreView, item_id: i64, name: Seq<char>) -> (
    StoreView,
    bool,
) {
    let s1 = spec_add_tag(s, name).0;
    let tid = spec_add_tag(s, name).1;
    if has_item_id(s1.items, item_id) {
        if has_assoc(s1.assocs, item_id, tid) {
            (s1, true)
        } else {
            (StoreView { assocs: s1.assocs.push((item_id, tid)), ..s1 }, true)
        }
    } else {
        (s1, false)
    }
}

/// The associations left after removing one pair.
pub open spec fn remove_pair(assocs: Seq<(i64, i64)>, item_id: i64, tid: i64) -> Seq<(i64, i64)>
    decreases assocs.len(),
{
    if assocs.len() == 0 {
        assocs
    } else if assocs[0] == (item_id, tid) {
        remove_pair(assocs.skip(1), item_id, tid)
    } else {
        seq![assocs[0]] + remove_pair(assocs.skip(1), item_id, tid)
    }
}

/// Removing one pair keeps the rest distinct and drops every copy of the
/// pair.
pub proof fn lemma_remove_pair(assocs: Seq<(i64, i64)>, item_id: i64, tid: i64)
    ensures
        forall|x: (i64, i64)| #[trigger]
            remove_pair(assocs, item_id, tid).contains(x) ==> assocs.contains(x),
        (forall|i: int, j: int|
            0 <= i < j < assocs.len() ==> #[trigger] assocs[i] != #[trigger] assocs[j]) ==> (forall|
            i: int,
            j: int,
        |
            0 <= i < j < remove_pair(assocs, item_id, tid).len() ==> #[trigger] remove_pair(
                assocs,
                item_id,
                tid,
            )[i] != #[trigger] remove_pair(assocs, item_id, tid)[j]),
        forall|k: int|
            0 <= k < remove_pair(assocs, item_id, tid).len() ==> #[trigger] remove_pair(
                assocs,
                item_id,
                tid,
            )[k] != (item_id, tid),
    decreases assocs.len(),
{
    if assocs.len() == 0 {
    } else {
        lemma_remove_pair(assocs.skip(1), item_id, tid);
        let rest = remove_pair(assocs.skip(1), item_id, tid);
        let res = remove_pair(assocs, item_id, tid);
        assert forall|x: (i64, i64)| #[trigger] rest.contains(x) implies assocs.contains(x) by {
            let w = choose|k: int| 0 <= k < assocs.skip(1).len() && assocs.skip(1)[k] == x;
            assert(assocs[w + 1] == x);
        }
        if assocs[0] != (item_id, tid) {
            assert(res == seq![assocs[0]] + rest);
            assert forall|x: (i64, i64)| #[trigger] res.contains(x) implies assocs.contains(x) by {
                let w = choose|k: int| 0 <= k < res.len() && res[k] == x;
                if w == 0 {
                    assert(assocs[0] == x);
                } else {
                    assert(rest[w - 1] == x);
                    assert(rest.contains(x));
                }
            }
            if forall|i: int, j: int|
                0 <= i < j < assocs.len() ==> #[trigger] assocs[i] != #[trigger] assocs[j] {
                assert forall|i: int, j: int|
                    0 <= i < j < assocs.skip(1).len() implies #[trigger] assocs.skip(1)[i]
                    != #[trigger] assocs.skip(1)[j] by {
                    assert(assocs.skip(1)[i] == assocs[i + 1]);
                    assert(assocs.skip(1)[j] == assocs[j + 1]);
                }
                assert forall|i: int, j: int| 0 <= i < j < res.len() implies #[trigger] res[i]
                    != #[trigger] res[j] by {
                    if i == 0 {
                        assert(res[j] == rest[j - 1]);
                        assert(rest.contains(rest[j - 1]));
                        assert(assocs.skip(1).contains(res[j]));
                        let w = choose|k: int|
                            0 <= k < assocs.skip(1).len() && assocs.skip(1)[k] == res[j];
                        assert(assocs[w + 1] == res[j]);
                        assert(assocs[0] != assocs[w + 1]);
                    } else {
                        assert(res[i] == rest[i - 1]);
                        assert(res[j] == rest[j - 1]);
                    }
                }
            }
        } else {
            assert(res == rest);
        }
    }
}

/// The store after dissociating a tag name from an item; an unknown tag
/// changes nothing.
pub open spec fn spec_remove_item_tag(s: StoreView, item_id: i64, name: Seq<char>) -> StoreView {
    let idx = find_tag(s.tags, name);
    if idx >= 0 {
        StoreView { assocs: remove_pair(s.assocs, item_id, s.tags[idx].id), ..s }
    } else {
        s
    }
}

/// The items that carry the tag `tid`, newest first.
pub open spec fn filter_by_tag(items: Seq<ItemView>, assocs: Seq<(i64, i64)>, tid: i64) -> Seq<
    ItemView,
>
    decreases items.len(),
{
    if items.len() == 0 {
        items
    } else if has_assoc(assocs, items[0].id, tid) {
        seq![items[0]] + filter_by_tag(items.skip(1), assocs, tid)
    } else {
        filter_by_tag(items.skip(1), assocs, tid)
    }
}

/// What `get_items_by_tag` returns: the items carrying the tag of that
/// name, newest first, at most `limit` long; an unknown tag matches
/// nothing.
pub open spec fn spec_items_by_tag(s: StoreView, name: Seq<char>, limit: i64) -> Seq<ItemView> {
    let idx = find_tag(s.tags, name);
    if idx < 0 {
        Seq::empty()
    } else {
        let matched = filter_by_tag(s.items, s.assocs, s.tags[idx].id);
        matched.take(clamp_count(limit, matched.len() as int))
    }
}

/// The item's own text matches the search key, ignoring ASCII case.
pub open spec fn item_text_match(it: ItemView, key: Seq<char>) -> bool {
    contains_ci(it.content, key) || contains_ci(it.preview, key)
}

/// The item matches the search key through its content, its preview or
/// one of its tag names.
pub open spec fn item_query_match(s: StoreView, it: ItemView, key: Seq<char>) -> bool {
    item_text_match(it, key) || exists|k: int|
        0 <= k < s.assocs.len() && (#[trigger] s.assocs[k]).0 == it.id && contains_ci(
            tag_name_by_id(s.tags, s.assocs[k].1),
            key,
        )
}

/// The matching items of one favorite class, newest first.
pub open spec fn filter_query(
    items: Seq<ItemView>,
    s: StoreView,
    key: Seq<char>,
    want_fav: bool,
) -> Seq<ItemView>
    decreases items.len(),
{
    if items.len() == 0 {
        items
    } else if items[0].is_favorite == want_fav && item_query_match(s, items[0], key) {
        seq![items[0]] + filter_query(items.skip(1), s, key, want_fav)
    } else {
        filter_query(items.skip(1), s, key, want_fav)
    }
}

/// What `search_items` returns: for a query that trims to nothing, the
/// first page of all items; otherwise the matching items, favorites
/// first, each class newest first, at most `limit` long.
pub open spec fn spec_search(s: StoreView, query: Seq<char>, limit: i64) -> Seq<ItemView> {
    let key = trim_spec(query);
    if key.len() == 0 {
        spec_get_items(s, limit, 0)
    } else {
        let m = filter_query(s.items, s, key, true) + filter_query(s.items, s, key, false);
        m.take(clamp_count(limit, m.len() as int))
    }
}

/// Law: enforcing the capacity bound leaves at most `max_items` items,
/// and a non-positive bound leaves none.
pub proof fn lemma_maintain_limit_bound(s: StoreView, max_items: i64)
    requires
        wf(s),
    ensures
        max_items <= 0 ==> spec_maintain(s, max_items).items.len() == 0,
        max_items > 0 ==> spec_maintain(s, max_items).items.len() <= max_items,
{
    if max_items > 0 && s.items.len() > max_items {
        lemma_counts(s.items);
        let overflow = s.items.len() - max_items;
        let nf = min(overflow as int, count_nonfav(s.items));
        let f = overflow - nf;
        lemma_drop_oldest(s.items, nf, f);
    }
}

/// Law: capacity eviction never removes a favorite while a non-favorite
/// with an older timestamp survives; once eviction reaches a favorite,
/// every non-favorite is gone.
pub proof fn lemma_maintain_limit_protects_favorites(
    s: StoreView,
    max_items: i64,
    x: ItemView,
    y: ItemView,
)
    requires
        wf(s),
        s.items.contains(x),
        x.is_favorite,
        !spec_maintain(s, max_items).items.contains(x),
        s.items.contains(y),
        !y.is_favorite,
        y.created_at < x.created_at,
    ensures
        !spec_maintain(s, max_items).items.contains(y),
{
    if max_items <= 0 {
    } else if s.items.len() <= max_items {
        assert(spec_maintain(s, max_items).items.contains(x));
    } else {
        lemma_counts(s.items);
        let overflow = s.items.len() - max_items;
        let nf = min(overflow as int, count_nonfav(s.items));
        let f = overflow - nf;
        lemma_drop_oldest(s.items, nf, f);
        if f == 0 {
            assert(spec_maintain(s, max_items).items.contains(x));
        }
        assert(nf >= count_nonfav(s.items));
        if spec_maintain(s, max_items).items.contains(y) {
            assert(y.is_favorite);
        }
    }
}

/// Law: a query that trims to nothing returns exactly the first page of
/// all items, as `get_items` lists it.
pub proof fn lemma_search_blank_is_get_items(s: StoreView, query: Seq<char>, limit: i64)
    requires
        trim_spec(query).len() == 0,
    ensures
        spec_search(s, query, limit) == spec_get_items(s, limit, 0),
{
}

/// Every listed item of a tag indeed carries the tag, and no more items
/// are listed than stored.
proof fn lemma_filter_by_tag_sound(items: Seq<ItemView>, assocs: Seq<(i64, i64)>, tid: i64)
    ensures
        forall|k: int|
            0 <= k < filter_by_tag(items, assocs, tid).len() ==> has_assoc(
                assocs,
                (#[trigger] filter_by_tag(items, assocs, tid)[k]).id,
                tid,
            ),
        filter_by_tag(items, assocs, tid).len() <= items.len(),
    decreases items.len(),
{
    if items.len() > 0 {
        lemma_filter_by_tag_sound(items.skip(1), assocs, tid);
    }
}

/// An item that carries the tag is listed for it.
proof fn lemma_filter_by_tag_complete(
    items: Seq<ItemView>,
    assocs: Seq<(i64, i64)>,
    tid: i64,
    id: i64,
)
    requires
        has_item_id(items, id),
        has_assoc(assocs, id, tid),
    ensures
        exists|k: int|
            0 <= k < filter_by_tag(items, assocs, tid).len() && (#[trigger] filter_by_tag(
                items,
                assocs,
                tid,
            )[k]).id == id,
    decreases items.len(),
{
    let res = filter_by_tag(items, assocs, tid);
    if items[0].id == id {
        assert(res[0].id == id);
    } else {
        let w = choose|i: int| 0 <= i < items.len() && (#[trigger] items[i]).id == id;
        assert(items.skip(1)[w - 1] == items[w]);
        assert(has_item_id(items.skip(1), id));
        lemma_filter_by_tag_complete(items.skip(1), assocs, tid, id);
        let sub = filter_by_tag(items.skip(1), assocs, tid);
        let v = choose|k: int| 0 <= k < sub.len() && (#[trigger] sub[k]).id == id;
        if has_assoc(assocs, items[0].id, tid) {
            assert(res[v + 1] == sub[v]);
        } else {
            assert(res[v] == sub[v]);
        }
    }
}

/// In the store left by the tag upsert, the upserted name is found, and
/// it carries the returned id.
proof fn lemma_add_tag_found(s: StoreView, name: Seq<char>)
    requires
        wf(s),
    ensures
        ({
            let s1 = spec_add_tag(s, name).0;
            let tid = spec_add_tag(s, name).1;
            find_tag(s1.tags, name) >= 0 && find_tag(s1.tags, name) < s1.tags.len()
                && s1.tags[find_tag(s1.tags, name)].id == tid && s1.items == s.items
        }),
{
    let s1 = spec_add_tag(s, name).0;
    let tid = spec_add_tag(s, name).1;
    lemma_find_tag(s.tags, name);
    let idx = find_tag(s.tags, name);
    if idx >= 0 {
        // the existing tag is returned, and it is what the lookup finds
        assert(s1 == s);
    } else {
        let p = tag_insert_pos(s.tags, name);
        lemma_tag_insert_pos(s.tags, name);
        lemma_find_tag(s1.tags, name);
        assert(s1.tags[p].name == name);
        assert(exists|i: int| 0 <= i < s1.tags.len() && (#[trigger] s1.tags[i]).name == name);
        let f = find_tag(s1.tags, name);
        // the inserted tag is the only one with this name
        assert forall|k: int| 0 <= k < s1.tags.len() && k != p implies (#[trigger] s1.tags[k]).name
            != name by {
            if k < p {
                assert(s1.tags[k] == s.tags[k]);
            } else {
                assert(s1.tags[k] == s.tags[k - 1]);
            }
        }
        assert(f == p);
    }
}

/// Law: the tag round trip.  Associating a tag name with a stored item
/// makes the item appear under that tag, for any limit that covers the
/// items carrying the tag; dissociating it makes the item disappear
/// from that listing, for every limit.
pub proof fn lemma_tag_round_trip(s: StoreView, item_id: i64, name: Seq<char>, limit: i64)
    requires
        wf(s),
        has_item_id(s.items, item_id),
        ({
            let s2 = spec_add_item_tag(s, item_id, name).0;
            let idx = find_tag(s2.tags, name);
            limit >= filter_by_tag(s2.items, s2.assocs, s2.tags[idx].id).len()
        }),
    ensures
        ({
            let listed = spec_items_by_tag(spec_add_item_tag(s, item_id, name).0, name, limit);
            exists|k: int| 0 <= k < listed.len() && (#[trigger] listed[k]).id == item_id
        }),
        ({
            let gone = spec_items_by_tag(
                spec_remove_item_tag(spec_add_item_tag(s, item_id, name).0, item_id, name),
                name,
                limit,
            );
            forall|k: int| 0 <= k < gone.len() ==> (#[trigger] gone[k]).id != item_id
        }),
{
    let s1 = spec_add_tag(s, name).0;
    let tid = spec_add_tag(s, name).1;
    lemma_add_tag_found(s, name);
    let s2 = spec_add_item_tag(s, item_id, name).0;
    // the association exists after the add
    assert(has_assoc(s2.assocs, item_id, tid)) by {
        if has_assoc(s1.assocs, item_id, tid) {
            assert(s2 == s1);
        } else {
            assert(s2.assocs[s2.assocs.len() - 1] == (item_id, tid));
        }
    }
    assert(s2.tags == s1.tags);
    assert(s2.items == s.items);
    let idx = find_tag(s2.tags, name);
    assert(idx >= 0 && s2.tags[idx].id == tid);
    let matched = filter_by_tag(s2.items, s2.assocs, tid);
    lemma_filter_by_tag_sound(s2.items, s2.assocs, tid);
    lemma_filter_by_tag_complete(s2.items, s2.assocs, tid, item_id);
    assert(matched.take(clamp_count(limit, matched.len() as int)) =~= matched);
    let listed = spec_items_by_tag(s2, name, limit);
    assert(listed == matched);
    let v = choose|k: int| 0 <= k < matched.len() && (#[trigger] matched[k]).id == item_id;
    assert(listed[v].id == item_id);
    // after the removal the association is gone, so the item is not listed
    let s3 = spec_remove_item_tag(s2, item_id, name);
    assert(s3.assocs == remove_pair(s2.assocs, item_id, tid));
    lemma_remove_pair(s2.assocs, item_id, tid);
    let gone_all = filter_by_tag(s3.items, s3.assocs, tid);
    lemma_filter_by_tag_sound(s3.items, s3.assocs, tid);
    assert forall|k: int| 0 <= k < gone_all.len() implies (#[trigger] gone_all[k]).id != item_id
    by {
        if gone_all[k].id == item_id {
            assert(has_assoc(s3.assocs, item_id, tid));
            let w = choose|j: int|
                0 <= j < s3.assocs.len() && #[trigger] s3.assocs[j] == (item_id, tid);
            assert(false);
        }
    }
    let gone = spec_items_by_tag(s3, name, limit);
    assert forall|k: int| 0 <= k < gone.len() implies (#[trigger] gone[k]).id != item_id by {
        assert(gone[k] == gone_all[k]);
    }
}

/// The stored items selected by a sequence of positions.
spec fn idx_views(s: StoreView, idxs: Seq<usize>) -> Seq<ItemView> {
    Seq::new(idxs.len(), |k: int| s.items[idxs[k] as int])
}

/// The mathematical value of one stored row.
spec fn stored_view(row: StoredItem) -> ItemView {
    ItemView {
        id: row.id,
        content_type: row.content_type@,
        content: row.content@,
        preview: row.preview@,
        is_favorite: row.is_favorite,
        created_at: row.created_at,
    }
}

/// A reversed sequence starts with the last element.
proof fn lemma_reverse_unsnoc(s: Seq<ItemView>)
    requires
        s.len() > 0,
    ensures
        s.reverse() == seq![s.last()] + s.drop_last().reverse(),
{
    assert(s.reverse() =~= seq![s.last()] + s.drop_last().reverse());
}

/// Whether some row carries this id.
fn contains_item_id(rows: &Vec<StoredItem>, id: i64) -> (r: bool)
    ensures
        r == has_item_id(rows_view(rows@), id),
{
    let n = rows.len();
    let mut i: usize = 0;
    while i < n
        invariant
            i <= n,
            n == rows@.len(),
            forall|k: int| 0 <= k < i ==> (#[trigger] rows_view(rows@)[k]).id != id,
        decreases n - i,
    {
        if rows[i].id == id {
            proof {
                assert(rows_view(rows@)[i as int].id == id);
            }
            return true;
        }
        i = i + 1;
    }
    false
}

/// Whether a stored row is listed before an entry with this timestamp and id.
fn row_newer(row: &StoredItem, created_at: i64, id: i64) -> (r: bool)
    ensures
        r == (row.created_at > created_at || (row.created_at == created_at && row.id > id)),
{
    row.created_at > created_at || (row.created_at == created_at && row.id > id)
}

/// Relies on chrono::TimeDelta::from_std and TimeDelta::num_milliseconds,
/// which are total: a clock before the epoch or beyond chrono's range
/// reads as 0, and nothing is claimed of the value — every store
/// operation is proved for every timestamp.
#[verifier::external_body]
fn now_millis() -> i64 {
    match std::time::SystemTime::now().duration_since(std::time::UNIX_EPOCH) {
        Ok(since) => match chrono::TimeDelta::from_std(since) {
            Ok(delta) => delta.num_milliseconds(),
            Err(_) => 0,
        },
        Err(_) => 0,
    }
}

impl Database {
    /// An empty store.
    pub fn new() -> (r: Database)
        ensures
            wf(r@),
            r@.items == Seq::<ItemView>::empty(),
            r@.tags == Seq::<TagView>::empty(),
            r@.assocs == Seq::<(i64, i64)>::empty(),
            r@.next_item_id == 1,
            r@.next_tag_id == 1,
    {
        let r = Database {
            items: Vec::new(),
            tags: Vec::new(),
            assocs: Vec::new(),
            next_item_id: 1,
            next_tag_id: 1,
        };
        proof {
            assert(r@.items =~= Seq::<ItemView>::empty());
            assert(r@.tags =~= Seq::<TagView>::empty());
            assert(r@.assocs =~= Seq::<(i64, i64)>::empty());
        }
        r
    }

    /// Inserts a new row with the given timestamp; favorite is off and the
    /// row receives the next id, which is returned.
    pub fn add_item_at(
        &mut self,
        content_type: &str,
        content: &str,
        preview: &str,
        created_at: i64,
    ) -> (r: i64)
        requires
            wf(old(self)@),
            old(self)@.next_item_id < i64::MAX,
        ensures
            wf(final(self)@),
            final(self)@ == spec_add_item(
                old(self)@,
                content_type@,
                content@,
                preview@,
                created_at,
            ),
            r == old(self)@.next_item_id,
    {
        let ghost it = ItemView {
            id: self.next_item_id,
            content_type: content_type@,
            content: content@,
            preview: preview@,
            is_favorite: false,
            created_at: created_at,
        };
        let id = self.next_item_id;
        let mut i: usize = 0;
        let n = self.items.len();
        proof {
            assert(self@.items.skip(0) =~= self@.items);
        }
        while i < n && row_newer(&self.items[i], created_at, id)
            invariant
                wf(self@),
                i <= n,
                n == self@.items.len(),
                id == self@.next_item_id,
                it == (ItemView {
                    id: self@.next_item_id,
                    content_type: content_type@,
                    content: content@,
                    preview: preview@,
                    is_favorite: false,
                    created_at: created_at,
                }),
                insert_pos(self@.items, it) == i + insert_pos(self@.items.skip(i as int), it),
                forall|k: int| 0 <= k < i ==> item_newer(#[trigger] self@.items[k], it),
            decreases n - i,
        {
            proof {
                assert(self@.items.skip(i as int)[0] == self@.items[i as int]);
                assert(self@.items.skip(i as int).skip(1) =~= self@.items.skip(i as int + 1));
            }
            i = i + 1;
        }
        proof {
            if i < n {
                assert(self@.items.skip(i as int)[0] == self@.items[i as int]);
                assert(!item_newer(self@.items[i as int], it));
            } else {
                assert(self@.items.skip(n as int).len() == 0);
            }
            assert(insert_pos(self@.items, it) == i);
        }
        let row = StoredItem {
            id: id,
            content_type: String::from_str(content_type),
            content: String::from_str(content),
            preview: String::from_str(preview),
            is_favorite: false,
            created_at: created_at,
        };
        let ghost old_view = self@;
        self.items.insert(i, row);
        self.next_item_id = id + 1;
        proof {
            let newv = self@;
            assert(newv.items =~= old_view.items.insert(i as int, it));
            assert(newv == spec_add_item(old_view, content_type@, content@, preview@, created_at));
            // well-formedness of the grown store
            let its = newv.items;
            assert forall|p: int, q: int| 0 <= p < q < its.len() implies item_newer(
                its[p],
                its[q],
            ) by {
                if p < i && q < i {
                } else if p < i && q == i {
                } else if p < i && q > i {
                    assert(its[q] == old_view.items[q - 1]);
                } else if p == i && q > i {
                    assert(its[q] == old_view.items[q - 1]);
                    // the new item is newer than everything not before it:
                    // an old item not strictly newer has a smaller id
                    assert(0 < old_view.items[q - 1].id < old_view.next_item_id);
                    if q - 1 >= i && i < old_view.items.len() {
                        assert(!item_newer(old_view.items[i as int], it));
                    }
                    if q - 1 > i {
                        assert(item_newer(old_view.items[i as int], old_view.items[q - 1]));
                    }
                } else {
                    assert(its[p] == old_view.items[p - 1]);
                    assert(its[q] == old_view.items[q - 1]);
                }
            }
            assert forall|p: int, q: int| 0 <= p < q < its.len() implies (#[trigger] its[p]).id
                != (#[trigger] its[q]).id by {
                if p < i && q < i {
                } else if p < i && q == i {
                    assert(its[p] == old_view.items[p]);
                } else if p < i && q > i {
                    assert(its[q] == old_view.items[q - 1]);
                } else if p == i && q > i {
                    assert(its[q] == old_view.items[q - 1]);
                } else {
                    assert(its[p] == old_view.items[p - 1]);
                    assert(its[q] == old_view.items[q - 1]);
                }
            }
            assert forall|k: int| 0 <= k < newv.assocs.len() implies has_item_id(
                newv.items,
                (#[trigger] newv.assocs[k]).0,
            ) by {
                assert(newv.assocs[k] == old_view.assocs[k]);
                let w = choose|x: int|
                    0 <= x < old_view.items.len() && (#[trigger] old_view.items[x]).id
                        == old_view.assocs[k].0;
                if w < i {
                    assert(its[w] == old_view.items[w]);
                } else {
                    assert(its[w + 1] == old_view.items[w]);
                }
            }
            assert(wf(newv));
        }
        id
    }

    /// Whether the id counters can still grow — the precondition of the
    /// inserting operations, testable by an unverified caller.
    pub fn ids_available(&self) -> (r: bool)
        ensures
            r == (self@.next_item_id < i64::MAX && self@.next_tag_id < i64::MAX),
    {
        self.next_item_id < i64::MAX && self.next_tag_id < i64::MAX
    }

    /// The name of the tag with id `tid`.
    fn tag_name_of(&self, tid: i64) -> (r: String)
        requires
            has_tag_id(self@.tags, tid),
        ensures
            r@ == tag_name_by_id(self@.tags, tid),
    {
        let n = self.tags.len();
        let mut j: usize = 0;
        proof {
            assert(self@.tags.skip(0) =~= self@.tags);
        }
        while j < n
            invariant
                j <= n,
                n == self@.tags.len(),
                has_tag_id(self@.tags, tid),
                tag_name_by_id(self@.tags, tid) == tag_name_by_id(self@.tags.skip(j as int), tid),
                forall|k: int| 0 <= k < j ==> (#[trigger] self@.tags[k]).id != tid,
            decreases n - j,
        {
            proof {
                assert(self@.tags.skip(j as int)[0] == self@.tags[j as int]);
                assert(self@.tags.skip(j as int).skip(1) =~= self@.tags.skip(j as int + 1));
            }
            if self.tags[j].id == tid {
                return self.tags[j].name.clone();
            }
            j = j + 1;
        }
        proof {
            let w = choose|i: int| 0 <= i < self@.tags.len() && (#[trigger] self@.tags[i]).id == tid;
            assert(false);
        }
        vstd::pervasive::unreached()
    }

    /// The tag names associated with the item `id`, in association order.
    fn item_tags(&self, id: i64) -> (r: Vec<String>)
        requires
            wf(self@),
        ensures
            r.deep_view() == spec_tags_of(self@, id),
    {
        let n = self.assocs.len();
        let mut out: Vec<String> = Vec::new();
        let mut i: usize = 0;
        proof {
            assert(self@.assocs.skip(0) =~= self@.assocs);
            assert(out.deep_view() + tags_of_rec(self@.assocs, self@.tags, id) =~= tags_of_rec(
                self@.assocs,
                self@.tags,
                id,
            ));
        }
        while i < n
            invariant
                wf(self@),
                i <= n,
                n == self@.assocs.len(),
                spec_tags_of(self@, id) == out.deep_view() + tags_of_rec(
                    self@.assocs.skip(i as int),
                    self@.tags,
                    id,
                ),
            decreases n - i,
        {
            proof {
                assert(self@.assocs.skip(i as int)[0] == self@.assocs[i as int]);
                assert(self@.assocs.skip(i as int).skip(1) =~= self@.assocs.skip(i as int + 1));
            }
            if self.assocs[i].item_id == id {
                let name = self.tag_name_of(self.assocs[i].tag_id);
                let ghost before = out.deep_view();
                out.push(name);
                proof {
                    assert(out.deep_view() =~= before + seq![
                        tag_name_by_id(self@.tags, self@.assocs[i as int].1),
                    ]);
                    assert((before + seq![tag_name_by_id(self@.tags, self@.assocs[i as int].1)])
                        + tags_of_rec(self@.assocs.skip(i as int + 1), self@.tags, id)
                        =~= before + (seq![
                        tag_name_by_id(self@.tags, self@.assocs[i as int].1),
                    ] + tags_of_rec(self@.assocs.skip(i as int + 1), self@.tags, id)));
                }
            }
            i = i + 1;
        }
        proof {
            assert(self@.assocs.skip(n as int).len() == 0);
            assert(out.deep_view() + tags_of_rec(self@.assocs.skip(n as int), self@.tags, id)
                =~= out.deep_view());
        }
        out
    }

    /// Builds the public item for a stored row, its tags attached.
    fn assemble_item(&self, idx: usize) -> (r: ClipboardItem)
        requires
            wf(self@),
            idx < self@.items.len(),
        ensures
            item_matches(self@, r, self@.items[idx as int]),
    {
        let row = &self.items[idx];
        let tags = self.item_tags(row.id);
        ClipboardItem {
            id: row.id,
            content_type: row.content_type.clone(),
            content: row.content.clone(),
            preview: row.preview.clone(),
            is_favorite: row.is_favorite,
            tags: tags,
            created_at: row.created_at,
        }
    }

    /// Returns at most `limit` items, newest first, skipping the first
    /// `offset`; a negative limit or offset counts as zero.
    pub fn get_items(&self, limit: i64, offset: i64) -> (r: Result<Vec<ClipboardItem>, ClipboardError>)
        requires
            wf(self@),
        ensures
            r is Ok,
            items_match(self@, r->Ok_0@, spec_get_items(self@, limit, offset)),
    {
        let n = self.items.len();
        let off: usize = if offset < 0 {
            0
        } else if offset as u64 > n as u64 {
            n
        } else {
            offset as usize
        };
        let avail = n - off;
        let cnt: usize = if limit < 0 {
            0
        } else if limit as u64 > avail as u64 {
            avail
        } else {
            limit as usize
        };
        let mut out: Vec<ClipboardItem> = Vec::new();
        let mut i: usize = 0;
        while i < cnt
            invariant
                wf(self@),
                off + cnt <= n,
                n == self@.items.len(),
                i <= cnt,
                out@.len() == i,
                forall|k: int|
                    0 <= k < i ==> item_matches(self@, #[trigger] out@[k], self@.items[off + k]),
            decreases cnt - i,
        {
            let item = self.assemble_item(off + i);
            out.push(item);
            i = i + 1;
        }
        proof {
            let page = spec_get_items(self@, limit, offset);
            assert(page.len() == cnt);
            assert forall|k: int| 0 <= k < cnt implies item_matches(
                self@,
                out@[k],
                page[k],
            ) by {
                assert(page[k] == self@.items[off + k]);
            }
        }
        Ok(out)
    }

    /// Enforces the capacity bound: with a non-positive bound everything
    /// is deleted; otherwise the overflow is evicted oldest first,
    /// preferring non-favorites, reaching into the favorites only when
    /// the non-favorites do not cover the overflow.  Associations of
    /// evicted items are removed with them.
    pub fn maintain_limit(&mut self, max_items: i64) -> (r: Result<(), ClipboardError>)
        requires
            wf(old(self)@),
        ensures
            wf(final(self)@),
            final(self)@ == spec_maintain(old(self)@, max_items),
            r is Ok,
    {
        if max_items <= 0 {
            self.items.clear();
            self.assocs.clear();
            proof {
                assert(self@.items =~= Seq::<ItemView>::empty());
                assert(self@.assocs =~= Seq::<(i64, i64)>::empty());
            }
            return Ok(());
        }
        let total = self.items.len();
        if (total as u64) <= (max_items as u64) {
            return Ok(());
        }
        let overflow: usize = total - (max_items as usize);
        // count the non-favorites
        let n = total;
        let mut cnf: usize = 0;
        let mut i: usize = 0;
        while i < n
            invariant
                i <= n,
                n == self@.items.len(),
                cnf <= i,
                cnf == count_nonfav(self@.items.take(i as int)),
            decreases n - i,
        {
            proof {
                assert(self@.items.take(i as int + 1).drop_last() =~= self@.items.take(i as int));
                assert(self@.items.take(i as int + 1).last() == self@.items[i as int]);
            }
            if !self.items[i].is_favorite {
                cnf = cnf + 1;
            }
            i = i + 1;
        }
        proof {
            assert(self@.items.take(n as int) =~= self@.items);
        }
        let nf_remove: usize = if overflow <= cnf {
            overflow
        } else {
            cnf
        };
        let f_remove: usize = overflow - nf_remove;
        proof {
            assert(cnf == count_nonfav(self@.items));
        }
        let ghost orig = old(self)@;
        self.evict_oldest(nf_remove, f_remove);
        proof {
            lemma_counts(orig.items);
            assert(min(overflow as int, count_nonfav(orig.items)) == nf_remove as int);
            assert(self@ == spec_maintain(orig, max_items));
        }
        Ok(())
    }

    /// Removes, oldest first, up to `nf_remove` non-favorites and then up
    /// to `f_remove` favorites, and drops the associations of the removed
    /// items with them.
    fn evict_oldest(&mut self, nf_remove: usize, f_remove: usize)
        requires
            wf(old(self)@),
        ensures
            wf(final(self)@),
            final(self)@.items == drop_oldest(
                old(self)@.items,
                nf_remove as int,
                f_remove as int,
            ),
            final(self)@.assocs == keep_assocs(old(self)@.assocs, final(self)@.items),
            final(self)@.tags == old(self)@.tags,
            final(self)@.next_item_id == old(self)@.next_item_id,
            final(self)@.next_tag_id == old(self)@.next_tag_id,
    {
        let ghost orig = old(self)@;
        let ghost items0 = self@.items;
        let ghost target = drop_oldest(items0, nf_remove as int, f_remove as int);
        let mut kept: Vec<StoredItem> = Vec::new();
        let mut nf_left = nf_remove;
        let mut f_left = f_remove;
        proof {
            assert(rows_view(kept@).reverse() =~= Seq::<ItemView>::empty());
            assert(drop_oldest(items0, nf_left as int, f_left as int) + Seq::<ItemView>::empty()
                =~= drop_oldest(items0, nf_left as int, f_left as int));
        }
        while self.items.len() > 0
            invariant
                target == drop_oldest(self@.items, nf_left as int, f_left as int) + rows_view(
                    kept@,
                ).reverse(),
                self@.tags == orig.tags,
                self@.assocs == orig.assocs,
                self@.next_item_id == orig.next_item_id,
                self@.next_tag_id == orig.next_tag_id,
            decreases self.items.len(),
        {
            let ghost cur = self@.items;
            let popped = self.items.pop();
            if let Some(row) = popped {
                proof {
                    assert(self@.items =~= cur.drop_last());
                    assert(cur.last() == stored_view(row));
                }
                if !row.is_favorite && nf_left > 0 {
                    nf_left = nf_left - 1;
                } else if row.is_favorite && f_left > 0 {
                    f_left = f_left - 1;
                } else {
                    let ghost kv = rows_view(kept@);
                    kept.push(row);
                    proof {
                        assert(rows_view(kept@) =~= kv.push(stored_view(row)));
                        lemma_reverse_unsnoc(rows_view(kept@));
                        assert(rows_view(kept@).drop_last() =~= kv);
                        assert((drop_oldest(cur.drop_last(), nf_left as int, f_left as int).push(
                            cur.last(),
                        )) + kv.reverse() =~= drop_oldest(
                            cur.drop_last(),
                            nf_left as int,
                            f_left as int,
                        ) + (seq![cur.last()] + kv.reverse()));
                    }
                }
            } else {
                proof {
                    assert(false);
                }
            }
        }
        proof {
            assert(self@.items.len() == 0);
            assert(drop_oldest(self@.items, nf_left as int, f_left as int)
                == self@.items);
            assert(self@.items + rows_view(kept@).reverse() =~= rows_view(kept@).reverse());
        }
        while kept.len() > 0
            invariant
                target == self@.items + rows_view(kept@).reverse(),
                self@.tags == orig.tags,
                self@.assocs == orig.assocs,
                self@.next_item_id == orig.next_item_id,
                self@.next_tag_id == orig.next_tag_id,
            decreases kept.len(),
        {
            let ghost k0 = rows_view(kept@);
            let ghost i0 = self@.items;
            let popped = kept.pop();
            if let Some(row) = popped {
                self.items.push(row);
                proof {
                    assert(rows_view(kept@) =~= k0.drop_last());
                    assert(k0.last() == stored_view(row));
                    assert(self@.items =~= i0.push(stored_view(row)));
                    lemma_reverse_unsnoc(k0);
                    assert((i0.push(k0.last())) + rows_view(kept@).reverse() =~= i0 + (seq![
                        k0.last(),
                    ] + rows_view(kept@).reverse()));
                }
            } else {
                proof {
                    assert(false);
                }
            }
        }
        proof {
            assert(rows_view(kept@).reverse() =~= Seq::<ItemView>::empty());
            assert(self@.items + rows_view(kept@).reverse() =~= self@.items);
            assert(self@.items == target);
        }
        // cascade: drop associations of evicted items
        let m = self.assocs.len();
        let mut newa: Vec<Assoc> = Vec::new();
        let mut j: usize = 0;
        proof {
            assert(self@.assocs.skip(0) =~= self@.assocs);
            assert(pairs_view(newa@) + keep_assocs(self@.assocs, target) =~= keep_assocs(
                self@.assocs,
                target,
            ));
        }
        while j < m
            invariant
                j <= m,
                m == self@.assocs.len(),
                self@.items == target,
                self@.tags == orig.tags,
                self@.assocs == orig.assocs,
                self@.next_item_id == orig.next_item_id,
                self@.next_tag_id == orig.next_tag_id,
                keep_assocs(orig.assocs, target) == pairs_view(newa@) + keep_assocs(
                    self@.assocs.skip(j as int),
                    target,
                ),
            decreases m - j,
        {
            proof {
                assert(self@.assocs.skip(j as int)[0] == self@.assocs[j as int]);
                assert(self@.assocs.skip(j as int).skip(1) =~= self@.assocs.skip(j as int + 1));
            }
            let a = self.assocs[j];
            if contains_item_id(&self.items, a.item_id) {
                let ghost pv = pairs_view(newa@);
                newa.push(a);
                proof {
                    assert(pairs_view(newa@) =~= pv.push((a.item_id, a.tag_id)));
                    assert((pv + seq![(a.item_id, a.tag_id)]) + keep_assocs(
                        self@.assocs.skip(j as int + 1),
                        target,
                    ) =~= pv + (seq![(a.item_id, a.tag_id)] + keep_assocs(
                        self@.assocs.skip(j as int + 1),
                        target,
                    )));
                    assert(pairs_view(newa@) =~= pv + seq![(a.item_id, a.tag_id)]);
                }
            }
            j = j + 1;
        }
        proof {
            assert(self@.assocs.skip(m as int).len() == 0);
            assert(pairs_view(newa@) + keep_assocs(self@.assocs.skip(m as int), target)
                =~= pairs_view(newa@));
        }
        self.assocs = newa;
        proof {
            lemma_counts(items0);
            lemma_drop_oldest(items0, nf_remove as int, f_remove as int);
            lemma_keep_assocs(orig.assocs, target);
            assert(self@.assocs == keep_assocs(orig.assocs, target));
            // the shrunk store is well formed
            assert forall|k: int| 0 <= k < target.len() implies 0 < (#[trigger] target[k]).id
                < self@.next_item_id by {
                assert(target.contains(target[k]));
                assert(items0.contains(target[k]));
                let w = choose|x: int| 0 <= x < items0.len() && items0[x] == target[k];
            }
            assert forall|k: int| 0 <= k < self@.assocs.len() implies has_tag_id(
                self@.tags,
                (#[trigger] self@.assocs[k]).1,
            ) by {
                assert(self@.assocs.contains(self@.assocs[k]));
                assert(orig.assocs.contains(self@.assocs[k]));
                let w = choose|x: int| 0 <= x < orig.assocs.len() && orig.assocs[x] == self@.assocs[k];
            }
            assert(wf(self@));
        }
    }

    /// Removes every non-favorite item, with its associations; favorites
    /// and tags are untouched.
    pub fn clear_non_favorites(&mut self) -> (r: Result<(), ClipboardError>)
        requires
            wf(old(self)@),
        ensures
            wf(final(self)@),
            final(self)@ == spec_clear_non_favorites(old(self)@),
            forall|x: ItemView| #[trigger] final(self)@.items.contains(x) ==> x.is_favorite,
            forall|x: ItemView|
                old(self)@.items.contains(x) && x.is_favorite
                    ==> #[trigger] final(self)@.items.contains(x),
            r is Ok,
    {
        let n = self.items.len();
        let mut cnf: usize = 0;
        let mut i: usize = 0;
        while i < n
            invariant
                i <= n,
                n == self@.items.len(),
                cnf <= i,
                cnf == count_nonfav(self@.items.take(i as int)),
            decreases n - i,
        {
            proof {
                assert(self@.items.take(i as int + 1).drop_last() =~= self@.items.take(i as int));
                assert(self@.items.take(i as int + 1).last() == self@.items[i as int]);
            }
            if !self.items[i].is_favorite {
                cnf = cnf + 1;
            }
            i = i + 1;
        }
        proof {
            assert(self@.items.take(n as int) =~= self@.items);
        }
        let ghost orig = old(self)@;
        self.evict_oldest(cnf, 0);
        proof {
            lemma_counts(orig.items);
            lemma_drop_oldest(orig.items, cnf as int, 0);
            assert(self@ == spec_clear_non_favorites(orig));
        }
        Ok(())
    }

    /// Flips the favorite mark of `id` and reports the state written; an
    /// unknown id changes nothing and reports `true`.
    pub fn toggle_favorite(&mut self, id: i64) -> (r: Result<bool, ClipboardError>)
        requires
            wf(old(self)@),
        ensures
            wf(final(self)@),
            final(self)@ == spec_toggle(old(self)@, id).0,
            r is Ok,
            r->Ok_0 == spec_toggle(old(self)@, id).1,
    {
        let n = self.items.len();
        let mut i: usize = 0;
        while i < n
            invariant
                i <= n,
                n == self@.items.len(),
                self@ == old(self)@,
                wf(self@),
                forall|k: int| 0 <= k < i ==> (#[trigger] self@.items[k]).id != id,
            decreases n - i,
        {
            if self.items[i].id == id {
                proof {
                    lemma_find_item(self@.items, id);
                    assert(self@.items[i as int].id == id);
                    assert(has_item_id(self@.items, id));
                    assert(find_item(self@.items, id) == i);
                }
                let ghost items0 = self@.items;
                let new_fav = !self.items[i].is_favorite;
                let mut row = self.items.remove(i);
                row.is_favorite = new_fav;
                self.items.insert(i, row);
                proof {
                    let it = items0[i as int];
                    let flipped = ItemView { is_favorite: !it.is_favorite, ..it };
                    assert(self@.items =~= items0.update(i as int, flipped));
                    let its = self@.items;
                    assert forall|p: int, q: int| 0 <= p < q < its.len() implies item_newer(
                        its[p],
                        its[q],
                    ) by {
                        assert(item_newer(items0[p], items0[q]));
                    }
                    assert forall|p: int, q: int| 0 <= p < q < its.len() implies (#[trigger] its[p]).id
                        != (#[trigger] its[q]).id by {
                        assert(items0[p].id != items0[q].id);
                    }
                    assert forall|k: int| 0 <= k < its.len() implies 0 < (#[trigger] its[k]).id
                        < self@.next_item_id by {
                        assert(its[k].id == items0[k].id);
                    }
                    assert forall|k: int| 0 <= k < self@.assocs.len() implies has_item_id(
                        its,
                        (#[trigger] self@.assocs[k]).0,
                    ) by {
                        let w = choose|x: int|
                            0 <= x < items0.len() && (#[trigger] items0[x]).id
                                == old(self)@.assocs[k].0;
                        assert(its[w].id == items0[w].id);
                    }
                    assert(self@.assocs == old(self)@.assocs);
                    assert(self@.tags == old(self)@.tags);
                    assert(wf(self@));
                }
                return Ok(new_fav);
            }
            i = i + 1;
        }
        proof {
            lemma_find_item(self@.items, id);
            if has_item_id(self@.items, id) {
                let w = choose|x: int|
                    0 <= x < self@.items.len() && (#[trigger] self@.items[x]).id == id;
                assert(false);
            }
        }
        Ok(true)
    }

    /// Deletes the item `id` and its associations; an unknown id is a
    /// no-op, not an error.
    pub fn delete_item(&mut self, id: i64) -> (r: Result<(), ClipboardError>)
        requires
            wf(old(self)@),
        ensures
            wf(final(self)@),
            final(self)@ == spec_delete(old(self)@, id),
            r is Ok,
    {
        let n = self.items.len();
        let mut i: usize = 0;
        while i < n
            invariant
                i <= n,
                n == self@.items.len(),
                self@ == old(self)@,
                wf(self@),
                forall|k: int| 0 <= k < i ==> (#[trigger] self@.items[k]).id != id,
            decreases n - i,
        {
            if self.items[i].id == id {
                proof {
                    lemma_find_item(self@.items, id);
                    assert(self@.items[i as int].id == id);
                    assert(has_item_id(self@.items, id));
                    assert(find_item(self@.items, id) == i);
                }
                let ghost items0 = self@.items;
                let ghost assocs0 = self@.assocs;
                let _ = self.items.remove(i);
                proof {
                    assert(self@.items =~= items0.remove(i as int));
                }
                let ghost target = self@.items;
                // drop the deleted item's associations
                let m = self.assocs.len();
                let mut newa: Vec<Assoc> = Vec::new();
                let mut j: usize = 0;
                proof {
                    assert(self@.assocs.skip(0) =~= self@.assocs);
                    assert(pairs_view(newa@) + drop_assocs_of(self@.assocs, id)
                        =~= drop_assocs_of(self@.assocs, id));
                }
                while j < m
                    invariant
                        j <= m,
                        m == self@.assocs.len(),
                        self@.assocs == assocs0,
                        self@.items == target,
                        self@.tags == old(self)@.tags,
                        self@.next_item_id == old(self)@.next_item_id,
                        self@.next_tag_id == old(self)@.next_tag_id,
                        drop_assocs_of(assocs0, id) == pairs_view(newa@) + drop_assocs_of(
                            self@.assocs.skip(j as int),
                            id,
                        ),
                    decreases m - j,
                {
                    proof {
                        assert(self@.assocs.skip(j as int)[0] == self@.assocs[j as int]);
                        assert(self@.assocs.skip(j as int).skip(1) =~= self@.assocs.skip(
                            j as int + 1,
                        ));
                    }
                    let a = self.assocs[j];
                    if a.item_id != id {
                        let ghost pv = pairs_view(newa@);
                        newa.push(a);
                        proof {
                            assert(pairs_view(newa@) =~= pv.push((a.item_id, a.tag_id)));
                            assert((pv + seq![(a.item_id, a.tag_id)]) + drop_assocs_of(
                                self@.assocs.skip(j as int + 1),
                                id,
                            ) =~= pv + (seq![(a.item_id, a.tag_id)] + drop_assocs_of(
                                self@.assocs.skip(j as int + 1),
                                id,
                            )));
                            assert(pairs_view(newa@) =~= pv + seq![(a.item_id, a.tag_id)]);
                        }
                    }
                    j = j + 1;
                }
                proof {
                    assert(self@.assocs.skip(m as int).len() == 0);
                    assert(pairs_view(newa@) + drop_assocs_of(self@.assocs.skip(m as int), id)
                        =~= pairs_view(newa@));
                }
                self.assocs = newa;
                proof {
                    lemma_drop_assocs_of(assocs0, id);
                    assert(self@.assocs == drop_assocs_of(assocs0, id));
                    assert(self@ == spec_delete(old(self)@, id));
                    let its = self@.items;
                    assert forall|p: int, q: int| 0 <= p < q < its.len() implies item_newer(
                        its[p],
                        its[q],
                    ) && (#[trigger] its[p]).id != (#[trigger] its[q]).id by {
                        if q < i {
                            assert(its[p] == items0[p] && its[q] == items0[q]);
                        } else if p < i {
                            assert(its[p] == items0[p] && its[q] == items0[q + 1]);
                        } else {
                            assert(its[p] == items0[p + 1] && its[q] == items0[q + 1]);
                        }
                    }
                    assert forall|k: int| 0 <= k < its.len() implies 0 < (#[trigger] its[k]).id
                        < self@.next_item_id by {
                        if k < i {
                            assert(its[k] == items0[k]);
                        } else {
                            assert(its[k] == items0[k + 1]);
                        }
                    }
                    assert forall|k: int| 0 <= k < self@.assocs.len() implies has_item_id(
                        its,
                        (#[trigger] self@.assocs[k]).0,
                    ) by {
                        assert(self@.assocs.contains(self@.assocs[k]));
                        assert(assocs0.contains(self@.assocs[k]));
                        let w0 = choose|x: int|
                            0 <= x < assocs0.len() && assocs0[x] == self@.assocs[k];
                        assert(has_item_id(items0, self@.assocs[k].0));
                        let w = choose|x: int|
                            0 <= x < items0.len() && (#[trigger] items0[x]).id
                                == self@.assocs[k].0;
                        assert(self@.assocs[k].0 != id);
                        assert(w != i);
                        if w < i {
                            assert(its[w] == items0[w]);
                        } else {
                            assert(its[w - 1] == items0[w]);
                        }
                    }
                    assert forall|k: int| 0 <= k < self@.assocs.len() implies has_tag_id(
                        self@.tags,
                        (#[trigger] self@.assocs[k]).1,
                    ) by {
                        assert(self@.assocs.contains(self@.assocs[k]));
                        assert(assocs0.contains(self@.assocs[k]));
                        let w0 = choose|x: int|
                            0 <= x < assocs0.len() && assocs0[x] == self@.assocs[k];
                    }
                    assert(wf(self@));
                }
                return Ok(());
            }
            i = i + 1;
        }
        proof {
            lemma_find_item(self@.items, id);
            if has_item_id(self@.items, id) {
                let w = choose|x: int|
                    0 <= x < self@.items.len() && (#[trigger] self@.items[x]).id == id;
                assert(false);
            }
        }
        Ok(())
    }

    /// Removes every item, every tag and every association, atomically.
    pub fn reset_all(&mut self) -> (r: Result<(), ClipboardError>)
        requires
            wf(old(self)@),
        ensures
            wf(final(self)@),
            final(self)@ == spec_reset(old(self)@),
            r is Ok,
    {
        self.items.clear();
        self.tags.clear();
        self.assocs.clear();
        proof {
            assert(self@.items =~= Seq::<ItemView>::empty());
            assert(self@.tags =~= Seq::<TagView>::empty());
            assert(self@.assocs =~= Seq::<(i64, i64)>::empty());
        }
        Ok(())
    }

    /// Creates the tag if it is absent and returns its id; an existing
    /// name returns the existing id.
    #[verifier::rlimit(60)]
    pub fn add_tag(&mut self, name: &str) -> (r: Result<i64, ClipboardError>)
        requires
            wf(old(self)@),
            old(self)@.next_tag_id < i64::MAX,
        ensures
            wf(final(self)@),
            final(self)@ == spec_add_tag(old(self)@, name@).0,
            r is Ok,
            r->Ok_0 == spec_add_tag(old(self)@, name@).1,
    {
        let n = self.tags.len();
        let mut i: usize = 0;
        proof {
            assert(self@.tags.skip(0) =~= self@.tags);
        }
        while i < n && str_lt(self.tags[i].name.as_str(), name)
            invariant
                i <= n,
                n == self@.tags.len(),
                self@ == old(self)@,
                wf(self@),
                tag_insert_pos(self@.tags, name@) == i + tag_insert_pos(
                    self@.tags.skip(i as int),
                    name@,
                ),
                forall|k: int| 0 <= k < i ==> lex_lt((#[trigger] self@.tags[k]).name, name@),
            decreases n - i,
        {
            proof {
                assert(self@.tags.skip(i as int)[0] == self@.tags[i as int]);
                assert(self@.tags.skip(i as int).skip(1) =~= self@.tags.skip(i as int + 1));
            }
            i = i + 1;
        }
        proof {
            if i < n {
                assert(self@.tags.skip(i as int)[0] == self@.tags[i as int]);
            } else {
                assert(self@.tags.skip(n as int).len() == 0);
            }
            assert(tag_insert_pos(self@.tags, name@) == i);
            lemma_lex_irrefl(name@);
        }
        if i < n && str_eq(self.tags[i].name.as_str(), name) {
            proof {
                lemma_find_tag(self@.tags, name@);
                assert forall|k: int| 0 <= k < i implies (#[trigger] self@.tags[k]).name != name@
                by {
                    if self@.tags[k].name == name@ {
                        lemma_lex_irrefl(name@);
                    }
                }
                assert(find_tag(self@.tags, name@) == i);
            }
            return Ok(self.tags[i].id);
        }
        proof {
            // the name is absent: everything before the stop is smaller,
            // everything from it on is larger
            lemma_find_tag(self@.tags, name@);
            assert forall|k: int| 0 <= k < n implies (#[trigger] self@.tags[k]).name != name@ by {
                if k < i {
                    if self@.tags[k].name == name@ {
                        lemma_lex_irrefl(name@);
                    }
                } else if k == i {
                } else {
                    if self@.tags[k].name == name@ {
                        assert(lex_lt(self@.tags[i as int].name, self@.tags[k].name));
                        lemma_lex_total(self@.tags[i as int].name, name@);
                        lemma_lex_trans(name@, self@.tags[i as int].name, name@);
                        lemma_lex_irrefl(name@);
                    }
                }
            }
            assert(find_tag(self@.tags, name@) == -1);
        }
        let tid = self.next_tag_id;
        let row = TagRow { id: tid, name: String::from_str(name) };
        let ghost tags0 = self@.tags;
        self.tags.insert(i, row);
        self.next_tag_id = tid + 1;
        proof {
            let tag = TagView { id: tid, name: name@ };
            assert(self@.tags =~= tags0.insert(i as int, tag));
            assert(self@ == spec_add_tag(old(self)@, name@).0);
            let ts = self@.tags;
            assert forall|k: int| i < k <= tags0.len() implies lex_lt(
                name@,
                (#[trigger] ts[k]).name,
            ) by {
                assert(ts[k] == tags0[k - 1]);
                lemma_lex_total(tags0[k - 1].name, name@);
                if k - 1 > i {
                    assert(lex_lt(tags0[i as int].name, tags0[k - 1].name));
                    if lex_lt(tags0[k - 1].name, name@) {
                        lemma_lex_total(tags0[i as int].name, name@);
                        if lex_lt(name@, tags0[i as int].name) {
                            lemma_lex_trans(name@, tags0[i as int].name, tags0[k - 1].name);
                        }
                        lemma_lex_trans(name@, tags0[k - 1].name, name@);
                        lemma_lex_irrefl(name@);
                    }
                } else {
                    if lex_lt(tags0[k - 1].name, name@) {
                        lemma_lex_irrefl(name@);
                    }
                }
            }
            assert forall|p: int, q: int| 0 <= p < q < ts.len() implies lex_lt(
                (#[trigger] ts[p]).name,
                (#[trigger] ts[q]).name,
            ) by {
                if p < i && q < i {
                    assert(ts[p] == tags0[p] && ts[q] == tags0[q]);
                } else if p < i && q == i {
                    assert(ts[p] == tags0[p]);
                } else if p < i && q > i {
                    assert(ts[p] == tags0[p] && ts[q] == tags0[q - 1]);
                } else if p == i && q > i {
                } else {
                    assert(ts[p] == tags0[p - 1] && ts[q] == tags0[q - 1]);
                }
            }
            assert forall|p: int, q: int| 0 <= p < q < ts.len() implies (#[trigger] ts[p]).id
                != (#[trigger] ts[q]).id by {
                if p < i && q < i {
                    assert(ts[p] == tags0[p] && ts[q] == tags0[q]);
                } else if p < i && q == i {
                    assert(ts[p] == tags0[p]);
                } else if p < i && q > i {
                    assert(ts[p] == tags0[p] && ts[q] == tags0[q - 1]);
                } else if p == i && q > i {
                    assert(ts[q] == tags0[q - 1]);
                } else {
                    assert(ts[p] == tags0[p - 1] && ts[q] == tags0[q - 1]);
                }
            }
            assert forall|k: int| 0 <= k < ts.len() implies 0 < (#[trigger] ts[k]).id
                < self@.next_tag_id by {
                if k < i {
                    assert(ts[k] == tags0[k]);
                } else if k > i {
                    assert(ts[k] == tags0[k - 1]);
                }
            }
            assert forall|k: int| 0 <= k < self@.assocs.len() implies has_tag_id(
                ts,
                (#[trigger] self@.assocs[k]).1,
            ) by {
                let w = choose|x: int|
                    0 <= x < tags0.len() && (#[trigger] tags0[x]).id == old(self)@.assocs[k].1;
                if w < i {
                    assert(ts[w] == tags0[w]);
                } else {
                    assert(ts[w + 1] == tags0[w]);
                }
            }
            assert(wf(self@));
        }
        Ok(tid)
    }

    /// Ensures the tag exists and associates it with the item; the
    /// association is skipped, and `StorageError` returned, when the item
    /// does not exist — the tag is created either way.
    pub fn add_item_tag(&mut self, item_id: i64, tag_name: &str) -> (r: Result<
        (),
        ClipboardError,
    >)
        requires
            wf(old(self)@),
            old(self)@.next_tag_id < i64::MAX,
        ensures
            wf(final(self)@),
            final(self)@ == spec_add_item_tag(old(self)@, item_id, tag_name@).0,
            (r is Ok) == has_item_id(old(self)@.items, item_id),
            r is Err ==> r->Err_0 == ClipboardError::StorageError,
    {
        let tid = match self.add_tag(tag_name) {
            Ok(t) => t,
            Err(_) => {
                proof {
                    assert(false);
                }
                return Err(ClipboardError::StorageError);
            },
        };
        let ghost s1 = self@;
        if !contains_item_id(&self.items, item_id) {
            return Err(ClipboardError::StorageError);
        }
        let m = self.assocs.len();
        let mut j: usize = 0;
        while j < m
            invariant
                j <= m,
                m == self@.assocs.len(),
                self@ == s1,
                wf(self@),
                s1 == spec_add_tag(old(self)@, tag_name@).0,
                tid == spec_add_tag(old(self)@, tag_name@).1,
                has_item_id(old(self)@.items, item_id),
                forall|k: int| 0 <= k < j ==> #[trigger] self@.assocs[k] != (item_id, tid),
            decreases m - j,
        {
            let a = self.assocs[j];
            if a.item_id == item_id && a.tag_id == tid {
                proof {
                    assert(self@.assocs[j as int] == (item_id, tid));
                    assert(has_assoc(s1.assocs, item_id, tid));
                }
                return Ok(());
            }
            proof {
                assert(self@.assocs[j as int] == (a.item_id, a.tag_id));
            }
            j = j + 1;
        }
        proof {
            if has_assoc(self@.assocs, item_id, tid) {
                let w = choose|k: int|
                    0 <= k < self@.assocs.len() && #[trigger] self@.assocs[k] == (item_id, tid);
                assert(false);
            }
        }
        let ghost assocs1 = self@.assocs;
        self.assocs.push(Assoc { item_id: item_id, tag_id: tid });
        proof {
            assert(self@.assocs =~= assocs1.push((item_id, tid)));
            lemma_add_tag_has(old(self)@, tag_name@);
            let asc = self@.assocs;
            assert forall|p: int, q: int| 0 <= p < q < asc.len() implies #[trigger] asc[p]
                != #[trigger] asc[q] by {
                if q < asc.len() - 1 {
                    assert(asc[p] == assocs1[p] && asc[q] == assocs1[q]);
                } else {
                    assert(asc[p] == assocs1[p]);
                    assert(asc[q] == (item_id, tid));
                }
            }
            assert forall|k: int| 0 <= k < asc.len() implies has_item_id(
                self@.items,
                (#[trigger] asc[k]).0,
            ) && has_tag_id(self@.tags, asc[k].1) by {
                if k < asc.len() - 1 {
                    assert(asc[k] == assocs1[k]);
                }
            }
            assert(wf(self@));
        }
        Ok(())
    }

    /// Removes the association of a tag name with an item; a missing tag
    /// or association is a no-op.
    pub fn remove_item_tag(&mut self, item_id: i64, tag_name: &str) -> (r: Result<
        (),
        ClipboardError,
    >)
        requires
            wf(old(self)@),
        ensures
            wf(final(self)@),
            final(self)@ == spec_remove_item_tag(old(self)@, item_id, tag_name@),
            r is Ok,
    {
        let n = self.tags.len();
        let mut i: usize = 0;
        while i < n
            invariant
                i <= n,
                n == self@.tags.len(),
                self@ == old(self)@,
                wf(self@),
                forall|k: int| 0 <= k < i ==> (#[trigger] self@.tags[k]).name != tag_name@,
            decreases n - i,
        {
            if str_eq(self.tags[i].name.as_str(), tag_name) {
                proof {
                    lemma_find_tag(self@.tags, tag_name@);
                    assert(self@.tags[i as int].name == tag_name@);
                    assert(exists|k: int|
                        0 <= k < self@.tags.len() && (#[trigger] self@.tags[k]).name == tag_name@);
                    assert(find_tag(self@.tags, tag_name@) == i);
                }
                let tid = self.tags[i].id;
                let ghost assocs0 = self@.assocs;
                let m = self.assocs.len();
                let mut newa: Vec<Assoc> = Vec::new();
                let mut j: usize = 0;
                proof {
                    assert(self@.assocs.skip(0) =~= self@.assocs);
                    assert(pairs_view(newa@) + remove_pair(self@.assocs, item_id, tid)
                        =~= remove_pair(self@.assocs, item_id, tid));
                }
                while j < m
                    invariant
                        j <= m,
                        m == self@.assocs.len(),
                        self@ == old(self)@,
                        remove_pair(assocs0, item_id, tid) == pairs_view(newa@) + remove_pair(
                            self@.assocs.skip(j as int),
                            item_id,
                            tid,
                        ),
                    decreases m - j,
                {
                    proof {
                        assert(self@.assocs.skip(j as int)[0] == self@.assocs[j as int]);
                        assert(self@.assocs.skip(j as int).skip(1) =~= self@.assocs.skip(
                            j as int + 1,
                        ));
                    }
                    let a = self.assocs[j];
                    proof {
                        assert(self@.assocs[j as int] == (a.item_id, a.tag_id));
                    }
                    if !(a.item_id == item_id && a.tag_id == tid) {
                        let ghost pv = pairs_view(newa@);
                        newa.push(a);
                        proof {
                            assert(pairs_view(newa@) =~= pv.push((a.item_id, a.tag_id)));
                            assert((pv + seq![(a.item_id, a.tag_id)]) + remove_pair(
                                self@.assocs.skip(j as int + 1),
                                item_id,
                                tid,
                            ) =~= pv + (seq![(a.item_id, a.tag_id)] + remove_pair(
                                self@.assocs.skip(j as int + 1),
                                item_id,
                                tid,
                            )));
                            assert(pairs_view(newa@) =~= pv + seq![(a.item_id, a.tag_id)]);
                        }
                    }
                    j = j + 1;
                }
                proof {
                    assert(self@.assocs.skip(m as int).len() == 0);
                    assert(pairs_view(newa@) + remove_pair(
                        self@.assocs.skip(m as int),
                        item_id,
                        tid,
                    ) =~= pairs_view(newa@));
                }
                self.assocs = newa;
                proof {
                    lemma_remove_pair(assocs0, item_id, tid);
                    assert(self@.assocs == remove_pair(assocs0, item_id, tid));
                    assert(self@ == spec_remove_item_tag(old(self)@, item_id, tag_name@));
                    assert forall|k: int| 0 <= k < self@.assocs.len() implies has_item_id(
                        self@.items,
                        (#[trigger] self@.assocs[k]).0,
                    ) && has_tag_id(self@.tags, self@.assocs[k].1) by {
                        assert(self@.assocs.contains(self@.assocs[k]));
                        assert(assocs0.contains(self@.assocs[k]));
                        let w = choose|x: int|
                            0 <= x < assocs0.len() && assocs0[x] == self@.assocs[k];
                    }
                    assert(wf(self@));
                }
                return Ok(());
            }
            i = i + 1;
        }
        proof {
            lemma_find_tag(self@.tags, tag_name@);
            if exists|k: int|
                0 <= k < self@.tags.len() && (#[trigger] self@.tags[k]).name == tag_name@ {
                let w = choose|k: int|
                    0 <= k < self@.tags.len() && (#[trigger] self@.tags[k]).name == tag_name@;
                assert(false);
            }
        }
        Ok(())
    }

    /// Every tag name, in ascending name order.
    pub fn get_all_tags(&self) -> (r: Result<Vec<String>, ClipboardError>)
        requires
            wf(self@),
        ensures
            r is Ok,
            r->Ok_0@.len() == self@.tags.len(),
            forall|k: int|
                0 <= k < self@.tags.len() ==> (#[trigger] r->Ok_0@[k])@ == self@.tags[k].name,
            forall|p: int, q: int|
                0 <= p < q < self@.tags.len() ==> lex_lt(r->Ok_0@[p]@, r->Ok_0@[q]@),
    {
        let n = self.tags.len();
        let mut out: Vec<String> = Vec::new();
        let mut i: usize = 0;
        while i < n
            invariant
                i <= n,
                n == self@.tags.len(),
                out@.len() == i,
                forall|k: int| 0 <= k < i ==> (#[trigger] out@[k])@ == self@.tags[k].name,
            decreases n - i,
        {
            out.push(self.tags[i].name.clone());
            i = i + 1;
        }
        Ok(out)
    }

    /// Whether the association pair is stored.
    fn has_assoc_exec(&self, item_id: i64, tid: i64) -> (r: bool)
        ensures
            r == has_assoc(self@.assocs, item_id, tid),
    {
        let m = self.assocs.len();
        let mut k: usize = 0;
        while k < m
            invariant
                k <= m,
                m == self@.assocs.len(),
                forall|j: int| 0 <= j < k ==> #[trigger] self@.assocs[j] != (item_id, tid),
            decreases m - k,
        {
            let a = self.assocs[k];
            if a.item_id == item_id && a.tag_id == tid {
                proof {
                    assert(self@.assocs[k as int] == (item_id, tid));
                }
                return true;
            }
            proof {
                assert(self@.assocs[k as int] == (a.item_id, a.tag_id));
            }
            k = k + 1;
        }
        proof {
            if has_assoc(self@.assocs, item_id, tid) {
                let w = choose|j: int|
                    0 <= j < self@.assocs.len() && #[trigger] self@.assocs[j] == (item_id, tid);
                assert(false);
            }
        }
        false
    }

    /// Whether the item at position `i` matches the search key through
    /// its content, preview or a tag name.
    fn row_query_match(&self, i: usize, key: &str) -> (r: bool)
        requires
            wf(self@),
            i < self@.items.len(),
        ensures
            r == item_query_match(self@, self@.items[i as int], key@),
    {
        if find_ci(self.items[i].content.as_str(), key) {
            return true;
        }
        if find_ci(self.items[i].preview.as_str(), key) {
            return true;
        }
        let id = self.items[i].id;
        let m = self.assocs.len();
        let mut k: usize = 0;
        while k < m
            invariant
                k <= m,
                m == self@.assocs.len(),
                wf(self@),
                i < self@.items.len(),
                id == self@.items[i as int].id,
                forall|j: int|
                    0 <= j < k ==> !((#[trigger] self@.assocs[j]).0 == id && contains_ci(
                        tag_name_by_id(self@.tags, self@.assocs[j].1),
                        key@,
                    )),
            decreases m - k,
        {
            let a = self.assocs[k];
            proof {
                assert(self@.assocs[k as int] == (a.item_id, a.tag_id));
            }
            if a.item_id == id {
                let name = self.tag_name_of(a.tag_id);
                if find_ci(name.as_str(), key) {
                    return true;
                }
            }
            k = k + 1;
        }
        false
    }

    /// The items carrying the tag, newest first, at most `limit` of them;
    /// an unknown tag name yields nothing.
    pub fn get_items_by_tag(&self, tag_name: &str, limit: i64) -> (r: Result<
        Vec<ClipboardItem>,
        ClipboardError,
    >)
        requires
            wf(self@),
        ensures
            r is Ok,
            items_match(self@, r->Ok_0@, spec_items_by_tag(self@, tag_name@, limit)),
    {
        let n = self.tags.len();
        let mut i: usize = 0;
        while i < n
            invariant
                i <= n,
                n == self@.tags.len(),
                wf(self@),
                forall|k: int| 0 <= k < i ==> (#[trigger] self@.tags[k]).name != tag_name@,
            decreases n - i,
        {
            if str_eq(self.tags[i].name.as_str(), tag_name) {
                proof {
                    lemma_find_tag(self@.tags, tag_name@);
                    assert(self@.tags[i as int].name == tag_name@);
                    assert(exists|k: int|
                        0 <= k < self@.tags.len() && (#[trigger] self@.tags[k]).name == tag_name@);
                    assert(find_tag(self@.tags, tag_name@) == i);
                }
                let tid = self.tags[i].id;
                let total = self.items.len();
                let mut idxs: Vec<usize> = Vec::new();
                let mut p: usize = 0;
                proof {
                    assert(self@.items.skip(0) =~= self@.items);
                    assert(idx_views(self@, idxs@) + filter_by_tag(self@.items, self@.assocs, tid)
                        =~= filter_by_tag(self@.items, self@.assocs, tid));
                }
                while p < total
                    invariant
                        p <= total,
                        total == self@.items.len(),
                        wf(self@),
                        forall|k: int| 0 <= k < idxs@.len() ==> (#[trigger] idxs@[k]) < total,
                        filter_by_tag(self@.items, self@.assocs, tid) == idx_views(self@, idxs@)
                            + filter_by_tag(self@.items.skip(p as int), self@.assocs, tid),
                    decreases total - p,
                {
                    proof {
                        assert(self@.items.skip(p as int)[0] == self@.items[p as int]);
                        assert(self@.items.skip(p as int).skip(1) =~= self@.items.skip(
                            p as int + 1,
                        ));
                    }
                    if self.has_assoc_exec(self.items[p].id, tid) {
                        let ghost iv = idx_views(self@, idxs@);
                        idxs.push(p);
                        proof {
                            assert(idx_views(self@, idxs@) =~= iv.push(self@.items[p as int]));
                            assert((iv + seq![self@.items[p as int]]) + filter_by_tag(
                                self@.items.skip(p as int + 1),
                                self@.assocs,
                                tid,
                            ) =~= iv + (seq![self@.items[p as int]] + filter_by_tag(
                                self@.items.skip(p as int + 1),
                                self@.assocs,
                                tid,
                            )));
                        }
                    }
                    p = p + 1;
                }
                proof {
                    assert(self@.items.skip(total as int).len() == 0);
                    assert(idx_views(self@, idxs@) + filter_by_tag(
                        self@.items.skip(total as int),
                        self@.assocs,
                        tid,
                    ) =~= idx_views(self@, idxs@));
                }
                return Ok(self.assemble_page(idxs, limit));
            }
            i = i + 1;
        }
        proof {
            lemma_find_tag(self@.tags, tag_name@);
            if exists|k: int|
                0 <= k < self@.tags.len() && (#[trigger] self@.tags[k]).name == tag_name@ {
                let w = choose|k: int|
                    0 <= k < self@.tags.len() && (#[trigger] self@.tags[k]).name == tag_name@;
                assert(false);
            }
            assert(spec_items_by_tag(self@, tag_name@, limit) =~= Seq::<ItemView>::empty());
        }
        Ok(Vec::new())
    }

    /// Builds at most `limit` public items from the selected positions.
    fn assemble_page(&self, idxs: Vec<usize>, limit: i64) -> (r: Vec<ClipboardItem>)
        requires
            wf(self@),
            forall|k: int| 0 <= k < idxs@.len() ==> (#[trigger] idxs@[k]) < self@.items.len(),
        ensures
            items_match(
                self@,
                r@,
                idx_views(self@, idxs@).take(
                    clamp_count(limit, idx_views(self@, idxs@).len() as int),
                ),
            ),
    {
        let matched = idxs.len();
        let cl: usize = if limit < 0 {
            0
        } else if (limit as u64) > (matched as u64) {
            matched
        } else {
            limit as usize
        };
        let mut out: Vec<ClipboardItem> = Vec::new();
        let mut k: usize = 0;
        while k < cl
            invariant
                k <= cl,
                cl <= matched,
                matched == idxs@.len(),
                wf(self@),
                forall|x: int| 0 <= x < idxs@.len() ==> (#[trigger] idxs@[x]) < self@.items.len(),
                out@.len() == k,
                forall|x: int|
                    0 <= x < k ==> item_matches(
                        self@,
                        #[trigger] out@[x],
                        self@.items[idxs@[x] as int],
                    ),
            decreases cl - k,
        {
            let item = self.assemble_item(idxs[k]);
            out.push(item);
            k = k + 1;
        }
        proof {
            let page = idx_views(self@, idxs@).take(
                clamp_count(limit, idx_views(self@, idxs@).len() as int),
            );
            assert(page.len() == cl);
            assert forall|x: int| 0 <= x < cl implies item_matches(self@, out@[x], page[x]) by {
                assert(page[x] == self@.items[idxs@[x] as int]);
            }
        }
        out
    }

    /// Searches content, preview and tag names, ignoring ASCII case; a
    /// blank query lists the first page of everything; otherwise matches
    /// come favorites first, each group newest first, at most `limit`.
    pub fn search_items(&self, query: &str, limit: i64) -> (r: Result<
        Vec<ClipboardItem>,
        ClipboardError,
    >)
        requires
            wf(self@),
        ensures
            r is Ok,
            items_match(self@, r->Ok_0@, spec_search(self@, query@, limit)),
    {
        let key = trim_str(query);
        if key.as_str().unicode_len() == 0 {
            return self.get_items(limit, 0);
        }
        let ghost kv = key@;
        let total = self.items.len();
        let mut idxs: Vec<usize> = Vec::new();
        let mut p: usize = 0;
        proof {
            assert(self@.items.skip(0) =~= self@.items);
            assert(idx_views(self@, idxs@) + filter_query(self@.items, self@, kv, true)
                =~= filter_query(self@.items, self@, kv, true));
        }
        while p < total
            invariant
                p <= total,
                total == self@.items.len(),
                wf(self@),
                kv == key@,
                forall|k: int| 0 <= k < idxs@.len() ==> (#[trigger] idxs@[k]) < total,
                filter_query(self@.items, self@, kv, true) == idx_views(self@, idxs@)
                    + filter_query(self@.items.skip(p as int), self@, kv, true),
            decreases total - p,
        {
            proof {
                assert(self@.items.skip(p as int)[0] == self@.items[p as int]);
                assert(self@.items.skip(p as int).skip(1) =~= self@.items.skip(p as int + 1));
            }
            let is_fav = self.items[p].is_favorite;
            if is_fav && self.row_query_match(p, key.as_str()) {
                let ghost iv = idx_views(self@, idxs@);
                idxs.push(p);
                proof {
                    assert(idx_views(self@, idxs@) =~= iv.push(self@.items[p as int]));
                    assert((iv + seq![self@.items[p as int]]) + filter_query(
                        self@.items.skip(p as int + 1),
                        self@,
                        kv,
                        true,
                    ) =~= iv + (seq![self@.items[p as int]] + filter_query(
                        self@.items.skip(p as int + 1),
                        self@,
                        kv,
                        true,
                    )));
                }
            }
            p = p + 1;
        }
        proof {
            assert(self@.items.skip(total as int).len() == 0);
            assert(idx_views(self@, idxs@) + filter_query(
                self@.items.skip(total as int),
                self@,
                kv,
                true,
            ) =~= idx_views(self@, idxs@));
        }
        let ghost favs = idx_views(self@, idxs@);
        let mut q: usize = 0;
        proof {
            assert(self@.items.skip(0) =~= self@.items);
        }
        while q < total
            invariant
                q <= total,
                total == self@.items.len(),
                wf(self@),
                kv == key@,
                forall|k: int| 0 <= k < idxs@.len() ==> (#[trigger] idxs@[k]) < total,
                favs == filter_query(self@.items, self@, kv, true),
                idx_views(self@, idxs@) + filter_query(self@.items.skip(q as int), self@, kv, false)
                    == favs + filter_query(self@.items, self@, kv, false),
            decreases total - q,
        {
            proof {
                assert(self@.items.skip(q as int)[0] == self@.items[q as int]);
                assert(self@.items.skip(q as int).skip(1) =~= self@.items.skip(q as int + 1));
            }
            let is_fav = self.items[q].is_favorite;
            if !is_fav && self.row_query_match(q, key.as_str()) {
                let ghost iv = idx_views(self@, idxs@);
                idxs.push(q);
                proof {
                    assert(idx_views(self@, idxs@) =~= iv.push(self@.items[q as int]));
                    assert((iv.push(self@.items[q as int])) + filter_query(
                        self@.items.skip(q as int + 1),
                        self@,
                        kv,
                        false,
                    ) =~= iv + (seq![self@.items[q as int]] + filter_query(
                        self@.items.skip(q as int + 1),
                        self@,
                        kv,
                        false,
                    )));
                }
            }
            q = q + 1;
        }
        proof {
            assert(self@.items.skip(total as int).len() == 0);
            assert(idx_views(self@, idxs@) + filter_query(
                self@.items.skip(total as int),
                self@,
                kv,
                false,
            ) =~= idx_views(self@, idxs@));
            assert(idx_views(self@, idxs@) == filter_query(self@.items, self@, kv, true)
                + filter_query(self@.items, self@, kv, false));
        }
        Ok(self.assemble_page(idxs, limit))
    }

    /// Inserts a new row stamped with the current wall-clock time.
    pub fn add_item(&mut self, content_type: &str, content: &str, preview: &str) -> (r: Result<
        i64,
        ClipboardError,
    >)
        requires
            wf(old(self)@),
            old(self)@.next_item_id < i64::MAX,
        ensures
            wf(final(self)@),
            r is Ok,
            r->Ok_0 == old(self)@.next_item_id,
            exists|t: i64|
                final(self)@ == spec_add_item(
                    old(self)@,
                    content_type@,
                    content@,
                    preview@,
                    t,
                ),
    {
        let t = now_millis();
        let id = self.add_item_at(content_type, content, preview, t);
        Ok(id)
    }
}

} // verus!
