//! The textures of the viewer that are kept for when a picture is shown again.
use vstd::prelude::*;

use crate::paths::{canonical, canonical_path, canonical_tells_paths_apart, same_path};
use crate::text::digit_char;
use crate::texture_lru::{
    holds, keys_distinct, lru_capacity, lru_entries, lru_get, lru_new, lru_peek, lru_pop_last,
    lru_push, lru_textures, place, stored, stored_properties, textures_of, total_bytes,
    total_bytes_front, touched, touched_properties, value_of, StoredTexture,
};

verus! {

/// How good a picture is.
#[derive(Clone, Copy, PartialEq, Eq, Structural, Debug)]
pub enum PrefetchKind {
    Preview,
    Full,
}

/// A texture of the viewer.
#[derive(Clone, Copy, PartialEq, Eq, Structural, Debug)]
pub struct CachedTexture {
    /// The number by which the toolkit side finds the texture.
    pub texture: u64,
    /// The size of the whole picture.
    pub orig_width: u32,
    pub orig_height: u32,
    /// The memory that the texture needs.
    pub bytes: usize,
    pub kind: PrefetchKind,
}

/// What is kept for a texture.
pub open spec fn entry_of(t: CachedTexture) -> StoredTexture {
    StoredTexture {
        texture: t.texture,
        width: t.orig_width,
        height: t.orig_height,
        bytes: t.bytes,
        full: t.kind == PrefetchKind::Full,
    }
}

/// The texture that something kept stands for.
pub open spec fn texture_of(e: StoredTexture) -> CachedTexture {
    CachedTexture {
        texture: e.texture,
        orig_width: e.width,
        orig_height: e.height,
        bytes: e.bytes,
        kind: if e.full {
            PrefetchKind::Full
        } else {
            PrefetchKind::Preview
        },
    }
}

/// What a texture is kept under: the quarter turns, of which only whole turns are
/// left out, and the canonical text of the path.
pub open spec fn viewer_key(path: Seq<char>, rotation_steps: u8) -> Seq<char> {
    seq![digit_char((rotation_steps % 4) as nat), ':'] + canonical(path)
}

/// Two pictures, or two turns of one, are never kept under the same key, and one turn
/// of a picture always is, however its path is written.
pub proof fn viewer_keys_differ(a: Seq<char>, s: u8, b: Seq<char>, t: u8)
    ensures
        viewer_key(a, s) == viewer_key(b, t) <==> same_path(a, b) && s % 4 == t % 4,
{
    canonical_tells_paths_apart(a, b);
    assert(viewer_key(a, s).skip(2) =~= canonical(a));
    assert(viewer_key(b, t).skip(2) =~= canonical(b));
    assert(viewer_key(a, s)[0] == digit_char((s % 4) as nat));
    assert(viewer_key(b, t)[0] == digit_char((t % 4) as nat));
}

fn make_key(path: &str, rotation_steps: u8) -> (r: String)
    ensures
        r@ == viewer_key(path@, rotation_steps),
{
    let mut key = String::new();
    key.push((rotation_steps % 4 + 48u8) as char);
    key.push(':');
    key.push_str(&canonical_path(path));
    assert(key@ =~= viewer_key(path@, rotation_steps));
    key
}

/// What is left of the entries once the least recently used ones are dropped until the
/// rest is within the limit.
pub open spec fn shrunk(entries: Seq<(Seq<char>, StoredTexture)>, limit: nat) -> Seq<
    (Seq<char>, StoredTexture),
>
    decreases entries.len(),
{
    if total_bytes(entries) > limit && entries.len() > 0 {
        shrunk(entries.drop_last(), limit)
    } else {
        entries
    }
}

/// The entries after a texture came in. A preview does not take the place of a full
/// picture.
pub open spec fn inserted(
    entries: Seq<(Seq<char>, StoredTexture)>,
    limit: nat,
    capacity: nat,
    key: Seq<char>,
    entry: StoredTexture,
) -> Seq<(Seq<char>, StoredTexture)> {
    match value_of(entries, key) {
        Some(old) if old.full && !entry.full => entries,
        _ => shrunk(stored(entries, capacity, key, entry), limit),
    }
}

/// After a texture came in, what is kept is within the limit, and the texture is found
/// again unless it alone exceeds the limit or a full picture stands in its place.
pub proof fn inserted_stays_within_limit(
    entries: Seq<(Seq<char>, StoredTexture)>,
    limit: nat,
    capacity: nat,
    key: Seq<char>,
    entry: StoredTexture,
)
    requires
        keys_distinct(entries),
        entries.len() <= capacity,
        capacity > 0,
        total_bytes(entries) <= limit,
    ensures
        ({
            let after = inserted(entries, limit, capacity, key, entry);
            &&& total_bytes(after) <= limit
            &&& keys_distinct(after)
            &&& after.len() <= capacity
            &&& entry.bytes <= limit ==> match value_of(entries, key) {
                Some(old) if old.full && !entry.full => value_of(after, key) == Some(old),
                _ => value_of(after, key) == Some(entry),
            }
        }),
{
    let all = stored(entries, capacity, key, entry);
    stored_properties(entries, capacity, key, entry);
    lemma_shrunk(all, limit);
    let after = shrunk(all, limit);
    assert(all[0] == (key, entry));
    if entry.bytes <= limit {
        if after.len() == 0 {
            assert(all.take(1) =~= seq![(key, entry)] + Seq::<
                (Seq<char>, StoredTexture),
            >::empty());
            total_bytes_front((key, entry), Seq::empty());
            assert(total_bytes(all.take(1)) <= limit);
        }
        assert(after[0] == (key, entry));
        assert(holds(after, key));
        let p = place(after, key);
        assert(after[p].0 == after[0].0);
    }
}

proof fn lemma_shrunk(entries: Seq<(Seq<char>, StoredTexture)>, limit: nat)
    ensures
        total_bytes(shrunk(entries, limit)) <= limit,
        shrunk(entries, limit).len() <= entries.len(),
        shrunk(entries, limit) == entries.take(shrunk(entries, limit).len() as int),
        forall|n: int|
            shrunk(entries, limit).len() < n <= entries.len() ==> total_bytes(
                #[trigger] entries.take(n),
            ) > limit,
    decreases entries.len(),
{
    assert(entries.take(entries.len() as int) =~= entries);
    if total_bytes(entries) > limit && entries.len() > 0 {
        let rest = entries.drop_last();
        lemma_shrunk(rest, limit);
        assert(shrunk(rest, limit) =~= entries.take(shrunk(rest, limit).len() as int));
        assert forall|n: int| shrunk(rest, limit).len() < n <= entries.len() implies total_bytes(
            #[trigger] entries.take(n),
        ) > limit by {
            if n < entries.len() {
                assert(rest.take(n) =~= entries.take(n));
            }
        }
    }
}

/// Keeps textures, up to a limit of bytes.
pub struct TextureCache {
    max_bytes: usize,
    bytes: usize,
    entries: lru::LruCache<String, StoredTexture>,
}

impl TextureCache {
    /// What is kept, most recently used first.
    pub closed spec fn kept(self) -> Seq<(Seq<char>, StoredTexture)> {
        lru_entries(self.entries)
    }

    /// The count of bytes.
    pub closed spec fn used(self) -> nat {
        self.bytes as nat
    }

    /// The limit of bytes.
    pub closed spec fn limit(self) -> nat {
        self.max_bytes as nat
    }

    /// How many textures can be kept.
    pub closed spec fn capacity(self) -> nat {
        lru_capacity(self.entries)
    }

    /// No key occurs twice, there are no more textures than can be kept, and the count
    /// of bytes is that of the textures and within the limit.
    pub open spec fn wf(self) -> bool {
        &&& keys_distinct(self.kept())
        &&& self.kept().len() <= self.capacity()
        &&& self.capacity() == 2048
        &&& self.used() == total_bytes(self.kept())
        &&& self.used() <= self.limit() <= usize::MAX
    }

    /// Limits are as in `other`.
    pub open spec fn same_limits(self, other: Self) -> bool {
        self.limit() == other.limit() && self.capacity() == other.capacity()
    }

    /// Keeps nothing yet.
    pub fn new(max_bytes: usize) -> (r: Self)
        ensures
            r.wf(),
            r.kept() == Seq::<(Seq<char>, StoredTexture)>::empty(),
            r.used() == 0,
            r.limit() == max_bytes,
            r.capacity() == 2048,
    {
        TextureCache { max_bytes, bytes: 0, entries: lru_new(2048) }
    }

    /// The texture of a picture, turned by the given quarters.
    pub fn get(&mut self, path: &str, rotation_steps: u8) -> (r: Option<CachedTexture>)
        requires
            old(self).wf(),
        ensures
            final(self).wf(),
            final(self).kept() == touched(old(self).kept(), viewer_key(path@, rotation_steps)),
            final(self).used() == old(self).used(),
            final(self).same_limits(*old(self)),
            r == match value_of(old(self).kept(), viewer_key(path@, rotation_steps)) {
                Some(e) => Some(texture_of(e)),
                None => None,
            },
    {
        let key = make_key(path, rotation_steps);
        proof {
            touched_properties(self.kept(), key@);
        }
        match lru_get(&mut self.entries, &key) {
            Some(e) => Some(
                CachedTexture {
                    texture: e.texture,
                    orig_width: e.width,
                    orig_height: e.height,
                    bytes: e.bytes,
                    kind: if e.full {
                        PrefetchKind::Full
                    } else {
                        PrefetchKind::Preview
                    },
                },
            ),
            None => None,
        }
    }

    /// Keeps a texture.
    pub fn insert(&mut self, path: &str, rotation_steps: u8, entry: CachedTexture)
        requires
            old(self).wf(),
        ensures
            final(self).wf(),
            final(self).same_limits(*old(self)),
            final(self).kept() == inserted(
                old(self).kept(),
                old(self).limit(),
                old(self).capacity(),
                viewer_key(path@, rotation_steps),
                entry_of(entry),
            ),
    {
        let key = make_key(path, rotation_steps);
        if let Some(old_entry) = lru_peek(&self.entries, &key) {
            if old_entry.full && entry.kind == PrefetchKind::Preview {
                return;
            }
        }
        let item = StoredTexture {
            texture: entry.texture,
            width: entry.orig_width,
            height: entry.orig_height,
            bytes: entry.bytes,
            full: entry.kind == PrefetchKind::Full,
        };
        proof {
            stored_properties(self.kept(), self.capacity(), key@, item);
            inserted_stays_within_limit(self.kept(), self.limit(), self.capacity(), key@, item);
        }
        let mut bytes: u128 = self.bytes as u128 + entry.bytes as u128;
        if let Some((_, gone)) = lru_push(&mut self.entries, key, item) {
            bytes = bytes - gone.bytes as u128;
        }
        let ghost goal = shrunk(lru_entries(self.entries), self.max_bytes as nat);
        while bytes > self.max_bytes as u128
            invariant
                goal == shrunk(lru_entries(self.entries), self.max_bytes as nat),
                bytes == total_bytes(lru_entries(self.entries)),
                self.max_bytes == old(self).max_bytes,
                lru_capacity(self.entries) == lru_capacity(old(self).entries),
            decreases lru_entries(self.entries).len(),
        {
            if let Some((_, gone)) = lru_pop_last(&mut self.entries) {
                bytes = bytes - gone.bytes as u128;
            }
        }
        self.bytes = bytes as usize;
    }

    /// Whether a picture, turned by the given quarters, is kept; it counts as used.
    pub fn contains(&mut self, path: &str, rotation_steps: u8) -> (r: bool)
        requires
            old(self).wf(),
        ensures
            final(self).wf(),
            final(self).kept() == touched(old(self).kept(), viewer_key(path@, rotation_steps)),
            final(self).used() == old(self).used(),
            final(self).same_limits(*old(self)),
            r == holds(old(self).kept(), viewer_key(path@, rotation_steps)),
    {
        let key = make_key(path, rotation_steps);
        proof {
            touched_properties(self.kept(), key@);
        }
        lru_get(&mut self.entries, &key).is_some()
    }

    /// The textures that are kept, most recently used first.
    pub fn textures(&self) -> (r: Vec<u64>)
        ensures
            r@ == textures_of(self.kept()),
    {
        lru_textures(&self.entries)
    }

    /// The count of bytes.
    pub fn used_bytes(&self) -> (r: usize)
        ensures
            r == self.used(),
    {
        self.bytes
    }
}

/// A texture that is kept comes back as it was, preview or full.
pub proof fn kept_texture_is_the_same(t: CachedTexture)
    ensures
        texture_of(entry_of(t)) == t,
        entry_of(t).width == t.orig_width && entry_of(t).height == t.orig_height,
        entry_of(t).full <==> t.kind == PrefetchKind::Full,
{
}

/// To keep to the limit the least recently used textures are dropped, and no more of
/// them than must be: with one more of them the limit would be exceeded.
pub proof fn no_more_is_dropped_than_must_be(
    entries: Seq<(Seq<char>, StoredTexture)>,
    limit: nat,
    n: int,
)
    ensures
        ({
            let left = shrunk(entries, limit);
            &&& left.len() <= entries.len()
            &&& left == entries.take(left.len() as int)
            &&& total_bytes(left) <= limit
            &&& left.len() < n <= entries.len() ==> total_bytes(entries.take(n)) > limit
        }),
{
    lemma_shrunk(entries, limit);
}

/// A preview leaves a full picture in its place; anything else that comes in is put
/// first, and what was kept follows in its order.
pub proof fn incoming_texture_is_put_first(
    entries: Seq<(Seq<char>, StoredTexture)>,
    limit: nat,
    capacity: nat,
    key: Seq<char>,
    entry: StoredTexture,
)
    requires
        keys_distinct(entries),
        entries.len() < capacity,
        total_bytes(entries) <= limit,
        !holds(entries, key),
        total_bytes(entries) + entry.bytes <= limit,
    ensures
        inserted(entries, limit, capacity, key, entry) == seq![(key, entry)] + entries,
{
    let after = seq![(key, entry)] + entries;
    total_bytes_front((key, entry), entries);
    assert(stored(entries, capacity, key, entry) =~= after);
    assert(shrunk(after, limit) == after);
}

/// A preview never takes the place of a full picture, and a full picture always takes
/// that of a preview.
pub proof fn full_pictures_are_preferred(
    entries: Seq<(Seq<char>, StoredTexture)>,
    limit: nat,
    capacity: nat,
    key: Seq<char>,
    entry: StoredTexture,
)
    requires
        keys_distinct(entries),
        0 < entries.len() <= capacity,
        total_bytes(entries) <= limit,
        entry.bytes <= limit,
        value_of(entries, key) is Some,
    ensures
        (value_of(entries, key)->0).full && !entry.full ==> inserted(
            entries,
            limit,
            capacity,
            key,
            entry,
        ) == entries,
        entry.full ==> value_of(inserted(entries, limit, capacity, key, entry), key) == Some(entry),
        !(value_of(entries, key)->0).full ==> value_of(
            inserted(entries, limit, capacity, key, entry),
            key,
        ) == Some(entry),
{
    inserted_stays_within_limit(entries, limit, capacity, key, entry);
}

} // verus!
