//! Layouts that are kept for when the same items are shown at about the same
//! width again.
use vstd::prelude::*;
use vstd::utf8::{encode_utf8, encode_utf8_decode_utf8};

use crate::hashing::{
    little_endian, little_endian_tells_numbers_apart, push_little_endian, xxh3, xxh3_64,
};
use crate::layout::justified::{
    all_items_are_placed, are_breaks, breaks_fit, breaks_keep_the_layout, breaks_of_rows, count,
    row_views, JustifiedLayout, RowBreak,
};
use crate::models::media_item::MediaItem;
use crate::models::row_model::{are_rows, RowModel};
use crate::single::Single;

verus! {

/// Widths within one bucket share a layout.
pub const WIDTH_BUCKET_SIZE: u32 = 50;

/// How many layouts are kept.
pub const MAX_CACHE_ENTRIES: usize = 8;

/// What a layout is kept under.
#[derive(Clone, Copy, PartialEq, Eq, Structural, Debug)]
pub struct LayoutKey {
    pub width_bucket: u32,
    pub list_hash: u64,
}

/// A layout that is kept.
struct CachedLayout {
    key: LayoutKey,
    breaks: Vec<RowBreak>,
    item_count: usize,
}

/// A layout that is kept, as plain values: its key, its breaks and how many items
/// it was made for.
pub type KeptLayout = (LayoutKey, Seq<RowBreak>, nat);

/// What a list of items is hashed from: the path and the time of each.
pub open spec fn list_bytes(items: Seq<MediaItem>) -> Seq<u8>
    decreases items.len(),
{
    if items.len() == 0 {
        seq![]
    } else {
        list_bytes(items.drop_last()) + encode_utf8(items.last().path@) + little_endian(
            items.last().mtime as u64,
        )
    }
}

/// Lists with the same paths and times in the same order are hashed from the same bytes,
/// whatever else their items hold. Lists that differ in a path, a time or the order are
/// hashed from different bytes; where paths stand for one another, they are taken to be
/// as long as one another.
pub proof fn listed_bytes_tell_lists_apart(a: Seq<MediaItem>, b: Seq<MediaItem>)
    requires
        a.len() == b.len(),
        forall|i: int|
            0 <= i < a.len() ==> encode_utf8((#[trigger] a[i]).path@).len() == encode_utf8(
                b[i].path@,
            ).len(),
    ensures
        list_bytes(a) == list_bytes(b) <==> (forall|i: int|
            0 <= i < a.len() ==> (#[trigger] a[i]).path@ == b[i].path@ && a[i].mtime == b[i].mtime),
    decreases a.len(),
{
    if a.len() > 0 {
        let (c, d) = (a.drop_last(), b.drop_last());
        let n = a.len() - 1;
        let (x, y) = (a[n], b[n]);
        assert forall|i: int| 0 <= i < c.len() implies encode_utf8((#[trigger] c[i]).path@).len()
            == encode_utf8(d[i].path@).len() by {
            assert(c[i] == a[i] && d[i] == b[i]);
        }
        listed_bytes_tell_lists_apart(c, d);
        little_endian_tells_numbers_apart(x.mtime as u64, y.mtime as u64);
        little_endian_tells_numbers_apart(y.mtime as u64, x.mtime as u64);
        let (s, t) = (x.mtime, y.mtime);
        assert(s as u64 == t as u64 ==> s == t) by (bit_vector);
        encode_utf8_decode_utf8(x.path@);
        encode_utf8_decode_utf8(y.path@);
        let (p, q) = (encode_utf8(x.path@), encode_utf8(y.path@));
        let (u, v) = (little_endian(s as u64), little_endian(t as u64));
        let (f, g) = (list_bytes(c), list_bytes(d));
        let all = list_bytes(a);
        assert(all == f + p + u && list_bytes(b) == g + q + v);
        if all == list_bytes(b) {
            assert(f.len() == g.len());
            assert(f =~= all.take(f.len() as int));
            assert(g =~= all.take(f.len() as int));
            assert(p =~= all.subrange(f.len() as int, (f.len() + p.len()) as int));
            assert(q =~= all.subrange(f.len() as int, (f.len() + p.len()) as int));
            assert(u =~= all.skip((f.len() + p.len()) as int));
            assert(v =~= all.skip((f.len() + p.len()) as int));
            assert forall|i: int| 0 <= i < a.len() implies (#[trigger] a[i]).path@ == b[i].path@
                && a[i].mtime == b[i].mtime by {
                if i < n {
                    assert(c[i] == a[i] && d[i] == b[i]);
                }
            }
        } else if forall|i: int|
            0 <= i < a.len() ==> (#[trigger] a[i]).path@ == b[i].path@ && a[i].mtime == b[i].mtime {
            assert forall|i: int| 0 <= i < c.len() implies (#[trigger] c[i]).path@ == d[i].path@
                && c[i].mtime == d[i].mtime by {
                assert(c[i] == a[i] && d[i] == b[i]);
            }
            assert(a[n].path@ == b[n].path@ && a[n].mtime == b[n].mtime);
        }
    }
}

/// The place of a key among the layouts, or their number.
pub open spec fn place_of(kept: Seq<KeptLayout>, key: LayoutKey) -> int
    decreases kept.len(),
{
    if kept.len() == 0 {
        0
    } else if kept[0].0 == key {
        0
    } else {
        1 + place_of(kept.skip(1), key)
    }
}

/// What is kept under a key.
pub open spec fn found(kept: Seq<KeptLayout>, key: LayoutKey) -> Option<KeptLayout> {
    if place_of(kept, key) < kept.len() {
        Some(kept[place_of(kept, key)])
    } else {
        None
    }
}

/// The layouts without the one under a key.
pub open spec fn dropped(kept: Seq<KeptLayout>, key: LayoutKey) -> Seq<KeptLayout> {
    if place_of(kept, key) < kept.len() {
        kept.remove(place_of(kept, key))
    } else {
        kept
    }
}

/// The layouts after one was used: it is the last to go.
pub open spec fn used(kept: Seq<KeptLayout>, key: LayoutKey) -> Seq<KeptLayout> {
    dropped(kept, key).push(kept[place_of(kept, key)])
}

/// The layouts after another is kept. When there is no room for it, the one that
/// was not used for the longest time goes.
pub open spec fn kept_with(kept: Seq<KeptLayout>, layout: KeptLayout) -> Seq<KeptLayout> {
    if found(kept, layout.0) is Some {
        dropped(kept, layout.0).push(layout)
    } else if kept.len() >= MAX_CACHE_ENTRIES {
        kept.skip(1).push(layout)
    } else {
        kept.push(layout)
    }
}

proof fn lemma_place(kept: Seq<KeptLayout>, key: LayoutKey)
    ensures
        0 <= place_of(kept, key) <= kept.len(),
        place_of(kept, key) < kept.len() ==> kept[place_of(kept, key)].0 == key,
        forall|i: int| 0 <= i < place_of(kept, key) ==> (#[trigger] kept[i]).0 != key,
    decreases kept.len(),
{
    if kept.len() > 0 && kept[0].0 != key {
        lemma_place(kept.skip(1), key);
        assert forall|i: int| 0 <= i < place_of(kept, key) implies (#[trigger] kept[i]).0 != key by {
            if i > 0 {
                assert(kept[i] == kept.skip(1)[i - 1]);
            }
        }
    }
}

proof fn lemma_place_is(kept: Seq<KeptLayout>, key: LayoutKey, p: int)
    requires
        0 <= p <= kept.len(),
        p < kept.len() ==> kept[p].0 == key,
        forall|i: int| 0 <= i < p ==> (#[trigger] kept[i]).0 != key,
    ensures
        place_of(kept, key) == p,
{
    lemma_place(kept, key);
    if place_of(kept, key) < p {
        assert(kept[place_of(kept, key)].0 != key);
    }
}

/// No key occurs twice.
pub open spec fn keys_differ(kept: Seq<KeptLayout>) -> bool {
    forall|i: int, j: int|
        0 <= i < j < kept.len() ==> (#[trigger] kept[i]).0 != (#[trigger] kept[j]).0
}

/// A layout that was kept is found, the others stay as they were unless they had
/// to go, no key occurs twice and there are never more than the limit.
pub proof fn kept_layout_is_found(kept: Seq<KeptLayout>, layout: KeptLayout)
    requires
        keys_differ(kept),
        kept.len() <= MAX_CACHE_ENTRIES,
    ensures
        found(kept_with(kept, layout), layout.0) == Some(layout),
        keys_differ(kept_with(kept, layout)),
        kept_with(kept, layout).len() <= MAX_CACHE_ENTRIES,
        forall|key: LayoutKey|
            key != layout.0 && (found(kept, layout.0) is Some || kept.len() < MAX_CACHE_ENTRIES
                || key != kept[0].0) ==> #[trigger] found(kept_with(kept, layout), key) == found(
                kept,
                key,
            ),
{
    lemma_place(kept, layout.0);
    let base = kept_with(kept, layout).drop_last();
    assert(kept_with(kept, layout) == base.push(layout));
    let p = place_of(kept, layout.0);
    let hit = p < kept.len();
    let full = !hit && kept.len() >= MAX_CACHE_ENTRIES;
    let gone: int = if hit {
        p
    } else if full {
        0
    } else {
        -1
    };
    assert(gone >= 0 ==> base =~= kept.remove(gone));
    assert(gone < 0 ==> base =~= kept);
    let all = base.push(layout);
    assert forall|i: int, j: int| 0 <= i < j < all.len() implies (#[trigger] all[i]).0 != (
    #[trigger] all[j]).0 by {
        let a = if gone >= 0 && i >= gone {
            i + 1
        } else {
            i
        };
        assert(all[i] == kept[a]);
        if j < base.len() {
            let b = if gone >= 0 && j >= gone {
                j + 1
            } else {
                j
            };
            assert(all[j] == kept[b]);
        } else if hit {
            assert(kept[p].0 == layout.0);
            if a < p {
                assert(kept[a].0 != kept[p].0);
            } else {
                assert(kept[p].0 != kept[a].0);
            }
        }
    }
    assert forall|i: int| 0 <= i < base.len() implies (#[trigger] all[i]).0 != layout.0 by {
        assert(all[base.len() as int] == layout);
    }
    lemma_place_is(all, layout.0, base.len() as int);
    assert forall|key: LayoutKey|
        key != layout.0 && (found(kept, layout.0) is Some || kept.len() < MAX_CACHE_ENTRIES || key
            != kept[0].0) implies #[trigger] found(all, key) == found(kept, key) by {
        lemma_place(kept, key);
        let q = place_of(kept, key);
        if q < kept.len() {
            let new_q = if gone >= 0 && q > gone {
                q - 1
            } else {
                q
            };
            assert(q != gone);
            assert(all[new_q] == kept[q]);
            assert forall|i: int| 0 <= i < new_q implies (#[trigger] all[i]).0 != key by {
                let a = if gone >= 0 && i >= gone {
                    i + 1
                } else {
                    i
                };
                assert(all[i] == kept[a]);
            }
            lemma_place_is(all, key, new_q);
        } else {
            assert forall|i: int| 0 <= i < all.len() implies (#[trigger] all[i]).0 != key by {
                if i < base.len() {
                    let a = if gone >= 0 && i >= gone {
                        i + 1
                    } else {
                        i
                    };
                    assert(all[i] == kept[a]);
                }
            }
            lemma_place_is(all, key, all.len() as int);
        }
    }
}

/// Using a layout changes nothing but when it goes.
pub proof fn used_layout_is_found(kept: Seq<KeptLayout>, key: LayoutKey)
    requires
        keys_differ(kept),
        found(kept, key) is Some,
    ensures
        keys_differ(used(kept, key)),
        used(kept, key).len() == kept.len(),
        found(used(kept, key), key) == found(kept, key),
        used(kept, key).last().0 == key,
        forall|i: int|
            0 <= i < used(kept, key).len() ==> kept.contains(#[trigger] used(kept, key)[i]),
{
    lemma_place(kept, key);
    let p = place_of(kept, key);
    let all = used(kept, key);
    let n = all.len() as int;
    assert forall|i: int| 0 <= i < n implies all[i] == kept[if i == n - 1 {
        p
    } else if i >= p {
        i + 1
    } else {
        i
    }] && kept.contains(#[trigger] all[i]) by {
    }
    assert forall|i: int, j: int| 0 <= i < j < n implies (#[trigger] all[i]).0 != (
    #[trigger] all[j]).0 by {
        let a = if i >= p {
            i + 1
        } else {
            i
        };
        assert(all[i] == kept[a]);
        if j < n - 1 {
            let b = if j >= p {
                j + 1
            } else {
                j
            };
            assert(all[j] == kept[b]);
        } else {
            if a < p {
                assert(kept[a].0 != kept[p].0);
            } else {
                assert(kept[p].0 != kept[a].0);
            }
        }
    }
    assert forall|i: int| 0 <= i < n - 1 implies (#[trigger] all[i]).0 != key by {
        assert(all[i].0 != all[n - 1].0);
    }
    lemma_place_is(all, key, n - 1);
}

/// Keeps the breaks of layouts, the longest unused first.
pub struct LayoutCache {
    entries: Vec<CachedLayout>,
}

impl LayoutCache {
    /// What is kept.
    pub closed spec fn kept(self) -> Seq<KeptLayout> {
        self.entries@.map_values(|e: CachedLayout| (e.key, e.breaks@, e.item_count as nat))
    }

    /// No key occurs twice, and no more are kept than there is room for.
    pub open spec fn wf(self) -> bool {
        keys_differ(self.kept()) && self.kept().len() <= MAX_CACHE_ENTRIES
    }

    /// Nothing is kept.
    pub fn new() -> (r: Self)
        ensures
            r.wf(),
            r.kept() == Seq::<KeptLayout>::empty(),
    {
        let r = LayoutCache { entries: Vec::new() };
        assert(r.kept() =~= Seq::<KeptLayout>::empty());
        r
    }

    /// The bucket of a width.
    pub fn width_bucket(viewport_width: Single) -> (r: u32)
        ensures
            r == viewport_width.whole() / WIDTH_BUCKET_SIZE,
    {
        viewport_width.to_whole() / WIDTH_BUCKET_SIZE
    }

    /// The hash of a list of items, in their order.
    pub fn compute_list_hash(items: &Vec<MediaItem>) -> (r: u64)
        ensures
            r == xxh3(list_bytes(items@)),
    {
        let mut data: Vec<u8> = Vec::new();
        let mut i: usize = 0;
        assert(items@.take(0) =~= seq![]);
        while i < items.len()
            invariant
                i <= items@.len(),
                data@ == list_bytes(items@.take(i as int)),
            decreases items@.len() - i,
        {
            assert(items@.take(i + 1).drop_last() =~= items@.take(i as int));
            let ghost before = data@;
            let bytes = items[i].path.as_str().as_bytes();
            let mut k: usize = 0;
            assert(bytes@.take(0) =~= seq![]);
            assert(data@ =~= before + bytes@.take(0));
            while k < bytes.len()
                invariant
                    k <= bytes@.len(),
                    data@ == before + bytes@.take(k as int),
                decreases bytes@.len() - k,
            {
                data.push(bytes[k]);
                k = k + 1;
                assert(data@ =~= before + bytes@.take(k as int));
            }
            assert(bytes@.take(bytes@.len() as int) =~= bytes@);
            push_little_endian(&mut data, items[i].mtime as u64);
            i = i + 1;
        }
        assert(items@.take(items@.len() as int) =~= items@);
        xxh3_64(&data)
    }

    fn find(&self, key: LayoutKey) -> (r: Option<usize>)
        ensures
            match r {
                Some(i) => i == place_of(self.kept(), key) && i < self.kept().len(),
                None => place_of(self.kept(), key) == self.kept().len(),
            },
    {
        let mut i: usize = 0;
        while i < self.entries.len()
            invariant
                i <= self.entries@.len(),
                forall|k: int| 0 <= k < i ==> (#[trigger] self.kept()[k]).0 != key,
            decreases self.entries@.len() - i,
        {
            assert(self.kept()[i as int].0 == self.entries@[i as int].key);
            if self.entries[i].key == key {
                proof {
                    lemma_place_is(self.kept(), key, i as int);
                }
                return Some(i);
            }
            i = i + 1;
        }
        proof {
            lemma_place_is(self.kept(), key, i as int);
        }
        None
    }

    /// The breaks that are kept for a width bucket and a list of items.
    pub fn get_breaks(&self, width_bucket: u32, list_hash: u64) -> (r: Option<Vec<RowBreak>>)
        ensures
            match found(self.kept(), LayoutKey { width_bucket, list_hash }) {
                Some(e) => r is Some && r->0@ == e.1,
                None => r is None,
            },
    {
        match self.find(LayoutKey { width_bucket, list_hash }) {
            Some(i) => Some(copy_breaks(&self.entries[i].breaks)),
            None => None,
        }
    }

    /// The rows that are kept for a width bucket and a list of items. A layout that
    /// was made for another number of items is not taken.
    pub fn get(
        &mut self,
        width_bucket: u32,
        list_hash: u64,
        items: &Vec<MediaItem>,
        layout: &JustifiedLayout,
    ) -> (r: Option<Vec<RowModel>>)
        requires
            old(self).wf(),
            match found(old(self).kept(), LayoutKey { width_bucket, list_hash }) {
                Some(e) => e.2 == items@.len() ==> {
                    &&& breaks_fit(e.1, items@.len())
                    &&& e.1.len() <= u32::MAX
                    &&& items@.len() > 0 ==> layout.wf()
                },
                None => true,
            },
        ensures
            final(self).wf(),
            ({
                let key = LayoutKey { width_bucket, list_hash };
                match found(old(self).kept(), key) {
                    Some(e) if e.2 == items@.len() => {
                        &&& final(self).kept() == used(old(self).kept(), key)
                        &&& r is Some
                        &&& are_rows(r->0@, layout.rows_between(items@, e.1))
                    },
                    _ => r is None && final(self).kept() == old(self).kept(),
                }
            }),
    {
        let key = LayoutKey { width_bucket, list_hash };
        let i: usize = match self.find(key) {
            Some(i) => i,
            None => {
                return None;
            },
        };
        if self.entries[i].item_count != items.len() {
            return None;
        }
        proof {
            used_layout_is_found(self.kept(), key);
            lemma_place(self.kept(), key);
        }
        let ghost before = self.kept();
        let entry = self.entries.remove(i);
        let rows = layout.rows_from_breaks(items, &entry.breaks);
        self.entries.push(entry);
        assert(self.kept() =~= used(before, key));
        Some(rows)
    }

    /// Keeps the breaks of a layout.
    pub fn set(
        &mut self,
        width_bucket: u32,
        list_hash: u64,
        breaks: Vec<RowBreak>,
        item_count: usize,
    )
        requires
            old(self).wf(),
        ensures
            final(self).wf(),
            final(self).kept() == kept_with(
                old(self).kept(),
                (LayoutKey { width_bucket, list_hash }, breaks@, item_count as nat),
            ),
    {
        let key = LayoutKey { width_bucket, list_hash };
        let ghost before = self.kept();
        let ghost layout = (key, breaks@, item_count as nat);
        proof {
            kept_layout_is_found(before, layout);
            lemma_place(before, key);
        }
        match self.find(key) {
            Some(i) => {
                self.entries.remove(i);
                assert(self.kept() =~= dropped(before, key));
            },
            None => {
                if self.entries.len() >= MAX_CACHE_ENTRIES {
                    self.evict_oldest();
                }
            },
        }
        let ghost base = self.kept();
        self.entries.push(CachedLayout { key, breaks, item_count });
        assert(self.kept() =~= base.push(layout));
    }

    fn evict_oldest(&mut self)
        requires
            old(self).kept().len() > 0,
        ensures
            final(self).kept() == old(self).kept().skip(1),
    {
        let ghost before = self.kept();
        self.entries.remove(0);
        assert(self.kept() =~= before.skip(1));
    }

    /// Keeps the breaks of rows.
    pub fn set_rows(
        &mut self,
        width_bucket: u32,
        list_hash: u64,
        rows: &Vec<RowModel>,
        items: &Vec<MediaItem>,
    )
        requires
            old(self).wf(),
            count(row_views(rows@), rows@.len() as int) <= usize::MAX,
        ensures
            final(self).wf(),
            exists|breaks: Seq<RowBreak>|
                #[trigger] are_breaks(breaks, row_views(rows@)) && final(self).kept() == kept_with(
                    old(self).kept(),
                    (LayoutKey { width_bucket, list_hash }, breaks, items@.len()),
                ),
    {
        let breaks = breaks_of_rows(rows);
        assert(are_breaks(breaks@, row_views(rows@)));
        self.set(width_bucket, list_hash, breaks, items.len());
    }

    /// Forgets everything.
    pub fn clear(&mut self)
        ensures
            final(self).wf(),
            final(self).kept() == Seq::<KeptLayout>::empty(),
    {
        self.entries.clear();
        assert(self.kept() =~= Seq::<KeptLayout>::empty());
    }

    /// How many layouts are kept.
    pub fn len(&self) -> (r: usize)
        ensures
            r == self.kept().len(),
    {
        self.entries.len()
    }

    /// Whether nothing is kept.
    pub fn is_empty(&self) -> (r: bool)
        ensures
            r == (self.kept().len() == 0),
    {
        self.entries.len() == 0
    }
}

impl Default for LayoutCache {
    fn default() -> (r: Self)
        ensures
            r.wf(),
            r.kept() == Seq::<KeptLayout>::empty(),
    {
        LayoutCache::new()
    }
}

fn copy_breaks(breaks: &Vec<RowBreak>) -> (r: Vec<RowBreak>)
    ensures
        r@ == breaks@,
{
    let mut out: Vec<RowBreak> = Vec::new();
    let mut i: usize = 0;
    while i < breaks.len()
        invariant
            i <= breaks@.len(),
            out@ == breaks@.take(i as int),
        decreases breaks@.len() - i,
    {
        out.push(breaks[i]);
        i = i + 1;
        assert(out@ =~= breaks@.take(i as int));
    }
    assert(out@ =~= breaks@);
    out
}

/// Whether all layouts that are kept stay within the number of items that they
/// were made for.
pub open spec fn all_fit(kept: Seq<KeptLayout>) -> bool {
    forall|i: int|
        0 <= i < kept.len() ==> breaks_fit((#[trigger] kept[i]).1, kept[i].2) && kept[i].1.len()
            <= u32::MAX
}

/// Lays items out and keeps the layouts.
pub struct CachedLayoutComputer {
    pub layout: JustifiedLayout,
    pub cache: LayoutCache,
}

impl CachedLayoutComputer {
    /// The layout settings make sense, and so do the layouts that are kept.
    pub open spec fn wf(self) -> bool {
        self.layout.wf() && self.cache.wf() && all_fit(self.cache.kept())
    }

    /// With the default settings.
    pub fn new() -> (r: Self)
        ensures
            r.wf(),
            r.cache.kept() == Seq::<KeptLayout>::empty(),
            r.layout.target_height.bits == 0x435c_0000,
            r.layout.gap.bits == 0,
    {
        CachedLayoutComputer { layout: JustifiedLayout::default(), cache: LayoutCache::new() }
    }

    /// With the given settings.
    pub fn with_layout(layout: JustifiedLayout) -> (r: Self)
        ensures
            r.layout == layout,
            layout.wf() ==> r.wf(),
            r.cache.kept() == Seq::<KeptLayout>::empty(),
    {
        CachedLayoutComputer { layout, cache: LayoutCache::new() }
    }

    /// Lays items out, or takes the layout that is kept for them. Afterwards the
    /// layout is kept, so the same items at the same width give the same rows.
    pub fn compute(&mut self, items: &Vec<MediaItem>, viewport_width: Single) -> (r: Vec<RowModel>)
        requires
            old(self).wf(),
            items@.len() <= u32::MAX,
        ensures
            final(self).wf(),
            final(self).layout == old(self).layout,
            ({
                let layout = old(self).layout;
                let key = LayoutKey {
                    width_bucket: viewport_width.whole() / WIDTH_BUCKET_SIZE,
                    list_hash: xxh3(list_bytes(items@)),
                };
                if items@.len() == 0 {
                    r@.len() == 0 && final(self).cache == old(self).cache
                } else {
                    &&& match found(old(self).cache.kept(), key) {
                        Some(e) if e.2 == items@.len() => {
                            &&& are_rows(r@, layout.rows_between(items@, e.1))
                            &&& final(self).cache.kept() == used(old(self).cache.kept(), key)
                        },
                        _ => {
                            &&& are_rows(r@, layout.rows(items@, viewport_width))
                            &&& exists|breaks: Seq<RowBreak>|
                                #[trigger] are_breaks(breaks, layout.rows(items@, viewport_width))
                                    && final(self).cache.kept() == kept_with(
                                    old(self).cache.kept(),
                                    (key, breaks, items@.len()),
                                )
                        },
                    }
                    &&& match found(final(self).cache.kept(), key) {
                        Some(e) => e.2 == items@.len() && are_rows(
                            r@,
                            layout.rows_between(items@, e.1),
                        ),
                        None => false,
                    }
                }
            }),
    {
        if items.len() == 0 {
            return Vec::new();
        }
        let width_bucket: u32 = LayoutCache::width_bucket(viewport_width);
        let list_hash: u64 = LayoutCache::compute_list_hash(items);
        let ghost key = LayoutKey { width_bucket, list_hash };
        let ghost kept = self.cache.kept();
        proof {
            lemma_place(kept, key);
        }
        if let Some(rows) = self.cache.get(width_bucket, list_hash, items, &self.layout) {
            proof {
                used_layout_is_found(kept, key);
                assert forall|i: int| 0 <= i < self.cache.kept().len() implies breaks_fit(
                    (#[trigger] self.cache.kept()[i]).1,
                    self.cache.kept()[i].2,
                ) && self.cache.kept()[i].1.len() <= u32::MAX by {
                    let e = used(kept, key)[i];
                    assert(kept.contains(e));
                    let k = choose|k: int| 0 <= k < kept.len() && kept[k] == e;
                    assert(kept[k] == e);
                }
            }
            return rows;
        }
        let breaks = self.layout.compute_breaks(items, viewport_width);
        let ghost all = self.layout.rows(items@, viewport_width);
        proof {
            all_items_are_placed(self.layout, items@, viewport_width);
            breaks_keep_the_layout(self.layout, items@, viewport_width, breaks@);
            kept_layout_is_found(kept, (key, breaks@, items@.len()));
            assert(are_breaks(breaks@, all));
        }
        let rows = self.layout.rows_from_breaks(items, &breaks);
        let ghost layout = (key, breaks@, items@.len());
        self.cache.set(width_bucket, list_hash, breaks, items.len());
        proof {
            let now = kept_with(kept, layout);
            assert forall|i: int| 0 <= i < now.len() implies breaks_fit(
                (#[trigger] now[i]).1,
                now[i].2,
            ) && now[i].1.len() <= u32::MAX by {
                if i == now.len() - 1 {
                    assert(now[i] == layout);
                } else if found(kept, key) is Some && i >= place_of(kept, key) {
                    assert(now[i] == kept[i + 1]);
                } else if found(kept, key) is None && kept.len() >= MAX_CACHE_ENTRIES {
                    assert(now[i] == kept[i + 1]);
                } else {
                    assert(now[i] == kept[i]);
                }
            }
        }
        rows
    }

    /// Forgets all layouts.
    pub fn invalidate(&mut self)
        ensures
            final(self).layout == old(self).layout,
            final(self).cache.wf(),
            final(self).cache.kept() == Seq::<KeptLayout>::empty(),
            old(self).layout.wf() ==> final(self).wf(),
    {
        self.cache.clear();
    }
}

impl Default for CachedLayoutComputer {
    fn default() -> (r: Self)
        ensures
            r.wf(),
            r.cache.kept() == Seq::<KeptLayout>::empty(),
            r.layout.target_height.bits == 0x435c_0000,
            r.layout.gap.bits == 0,
    {
        CachedLayoutComputer::new()
    }
}

/// Layouts are kept for widths in steps of fifty pixels: two widths of one step are less than
/// fifty pixels apart, and a width fifty pixels greater is one step further on. Eight layouts
/// are kept.
pub proof fn widths_go_in_steps_of_fifty(a: u32, b: u32)
    ensures
        a / WIDTH_BUCKET_SIZE == b / WIDTH_BUCKET_SIZE ==> a - b < 50 && b - a < 50,
        a + 50 == b ==> a / WIDTH_BUCKET_SIZE + 1 == b / WIDTH_BUCKET_SIZE,
        MAX_CACHE_ENTRIES == 8,
{
}

} // verus!
