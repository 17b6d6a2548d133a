//! The least-recently-used list of textures that the thumbnail cache and the
//! viewer share. Textures themselves live with the toolkit; here a number
//! stands for each.
use vstd::prelude::*;

verus! {

/// A texture in a cache.
#[derive(Clone, Copy, PartialEq, Eq, Structural, Debug)]
pub struct StoredTexture {
    /// The number by which the toolkit side finds the texture.
    pub texture: u64,
    pub width: u32,
    pub height: u32,
    /// The memory that the texture is taken to need.
    pub bytes: usize,
    /// Whether this is the picture at its full size.
    pub full: bool,
}

/// `lru::LruCache`, a map that keeps its entries in the order of their last use
/// and drops the least recently used one when it is full.
#[verifier::external_type_specification]
#[verifier::external_body]
#[verifier::reject_recursive_types(K)]
#[verifier::reject_recursive_types(V)]
#[verifier::reject_recursive_types(S)]
pub struct ExLruCache<K, V, S>(lru::LruCache<K, V, S>);

/// `lru::DefaultHasher`, by which the cache spreads its keys.
#[verifier::external_type_specification]
#[verifier::external_body]
pub struct ExDefaultHasher(lru::DefaultHasher);

/// The entries of a cache, most recently used first.
pub uninterp spec fn lru_entries(cache: lru::LruCache<String, StoredTexture>) -> Seq<
    (Seq<char>, StoredTexture),
>;

/// The number of entries that a cache was made for.
pub uninterp spec fn lru_capacity(cache: lru::LruCache<String, StoredTexture>) -> nat;

/// Whether some entry has the given key.
pub open spec fn holds(entries: Seq<(Seq<char>, StoredTexture)>, key: Seq<char>) -> bool {
    exists|i: int| 0 <= i < entries.len() && (#[trigger] entries[i]).0 == key
}

/// Where the entry with the given key stands.
pub open spec fn place(entries: Seq<(Seq<char>, StoredTexture)>, key: Seq<char>) -> int {
    choose|i: int| 0 <= i < entries.len() && (#[trigger] entries[i]).0 == key
}

/// The value under the given key.
pub open spec fn value_of(
    entries: Seq<(Seq<char>, StoredTexture)>,
    key: Seq<char>,
) -> Option<StoredTexture> {
    if holds(entries, key) {
        Some(entries[place(entries, key)].1)
    } else {
        None
    }
}

/// The entries without the one under the given key.
pub open spec fn without(
    entries: Seq<(Seq<char>, StoredTexture)>,
    key: Seq<char>,
) -> Seq<(Seq<char>, StoredTexture)> {
    if holds(entries, key) {
        entries.remove(place(entries, key))
    } else {
        entries
    }
}

/// The entries after a use of the given key, which moves it to the front.
pub open spec fn touched(
    entries: Seq<(Seq<char>, StoredTexture)>,
    key: Seq<char>,
) -> Seq<(Seq<char>, StoredTexture)> {
    if holds(entries, key) {
        seq![entries[place(entries, key)]] + without(entries, key)
    } else {
        entries
    }
}

/// The entries after storing a value: in front, in place of the entry with the
/// same key, else of the last one where the cache is full.
pub open spec fn stored(
    entries: Seq<(Seq<char>, StoredTexture)>,
    capacity: nat,
    key: Seq<char>,
    value: StoredTexture,
) -> Seq<(Seq<char>, StoredTexture)> {
    if !holds(entries, key) && entries.len() == capacity {
        seq![(key, value)] + entries.drop_last()
    } else {
        seq![(key, value)] + without(entries, key)
    }
}

/// The entry that leaves when a value is stored.
pub open spec fn displaced(
    entries: Seq<(Seq<char>, StoredTexture)>,
    capacity: nat,
    key: Seq<char>,
) -> Option<(Seq<char>, StoredTexture)> {
    if holds(entries, key) {
        Some(entries[place(entries, key)])
    } else if entries.len() == capacity && capacity > 0 {
        Some(entries.last())
    } else {
        None
    }
}

/// An optional entry as plain values.
pub open spec fn entry_view(e: Option<(String, StoredTexture)>) -> Option<
    (Seq<char>, StoredTexture),
> {
    match e {
        Some((k, v)) => Some((k@, v)),
        None => None,
    }
}

/// `lru::LruCache::new` makes an empty cache for the given number of entries. It
/// sets aside the room for them at once.
#[verifier::external_body]
pub(crate) fn lru_new(capacity: usize) -> (r: lru::LruCache<String, StoredTexture>)
    requires
        0 < capacity <= 2048,
    ensures
        lru_entries(r) == Seq::<(Seq<char>, StoredTexture)>::empty(),
        lru_capacity(r) == capacity,
{
    lru::LruCache::new(std::num::NonZeroUsize::new(capacity).unwrap())
}

/// `lru::LruCache::get` gives the value under the key and moves its entry to the
/// front.
#[verifier::external_body]
pub(crate) fn lru_get(cache: &mut lru::LruCache<String, StoredTexture>, key: &String) -> (r: Option<
    StoredTexture,
>)
    ensures
        r == value_of(lru_entries(*old(cache)), key@),
        lru_entries(*final(cache)) == touched(lru_entries(*old(cache)), key@),
        lru_capacity(*final(cache)) == lru_capacity(*old(cache)),
{
    cache.get(key).copied()
}

/// `lru::LruCache::peek` gives the value under the key and leaves the order as it
/// is.
#[verifier::external_body]
pub(crate) fn lru_peek(cache: &lru::LruCache<String, StoredTexture>, key: &String) -> (r: Option<
    StoredTexture,
>)
    ensures
        r == value_of(lru_entries(*cache), key@),
{
    cache.peek(key).copied()
}

/// The textures of some entries, in their order.
pub open spec fn textures_of(entries: Seq<(Seq<char>, StoredTexture)>) -> Seq<u64> {
    Seq::new(entries.len(), |i: int| entries[i].1.texture)
}

/// `lru::LruCache::iter` hands out the entries, most recently used first, and leaves
/// the order as it is; of each the number of its texture is taken.
#[verifier::external_body]
pub(crate) fn lru_textures(cache: &lru::LruCache<String, StoredTexture>) -> (r: Vec<u64>)
    ensures
        r@ == textures_of(lru_entries(*cache)),
{
    cache.iter().map(|entry| entry.1.texture).collect()
}

/// `lru::LruCache::contains` tells whether there is an entry under the key and
/// leaves the order as it is.
#[verifier::external_body]
pub(crate) fn lru_contains(cache: &lru::LruCache<String, StoredTexture>, key: &String) -> (r: bool)
    ensures
        r == holds(lru_entries(*cache), key@),
{
    cache.contains(key)
}

/// `lru::LruCache::push` puts the value in front, under the key, and hands back
/// the entry that leaves for it: the one with the same key, else the least
/// recently used one where the cache is full.
#[verifier::external_body]
pub(crate) fn lru_push(
    cache: &mut lru::LruCache<String, StoredTexture>,
    key: String,
    value: StoredTexture,
) -> (r: Option<(String, StoredTexture)>)
    ensures
        entry_view(r) == displaced(lru_entries(*old(cache)), lru_capacity(*old(cache)), key@),
        lru_entries(*final(cache)) == stored(
            lru_entries(*old(cache)),
            lru_capacity(*old(cache)),
            key@,
            value,
        ),
        lru_capacity(*final(cache)) == lru_capacity(*old(cache)),
{
    cache.push(key, value)
}

/// `lru::LruCache::pop` takes the entry under the key out.
#[verifier::external_body]
pub(crate) fn lru_pop(cache: &mut lru::LruCache<String, StoredTexture>, key: &String) -> (r: Option<
    StoredTexture,
>)
    ensures
        r == value_of(lru_entries(*old(cache)), key@),
        lru_entries(*final(cache)) == without(lru_entries(*old(cache)), key@),
        lru_capacity(*final(cache)) == lru_capacity(*old(cache)),
{
    cache.pop(key)
}

/// `lru::LruCache::pop_lru` takes the least recently used entry out.
#[verifier::external_body]
pub(crate) fn lru_pop_last(cache: &mut lru::LruCache<String, StoredTexture>) -> (r: Option<
    (String, StoredTexture),
>)
    ensures
        entry_view(r) == if lru_entries(*old(cache)).len() == 0 {
            None
        } else {
            Some(lru_entries(*old(cache)).last())
        },
        lru_entries(*final(cache)) == if lru_entries(*old(cache)).len() == 0 {
            lru_entries(*old(cache))
        } else {
            lru_entries(*old(cache)).drop_last()
        },
        lru_capacity(*final(cache)) == lru_capacity(*old(cache)),
{
    cache.pop_lru()
}

/// `lru::LruCache::len` is the number of entries.
#[verifier::external_body]
pub(crate) fn lru_len(cache: &lru::LruCache<String, StoredTexture>) -> (r: usize)
    ensures
        r == lru_entries(*cache).len(),
{
    cache.len()
}

/// `lru::LruCache::clear` takes every entry out.
#[verifier::external_body]
pub(crate) fn lru_clear(cache: &mut lru::LruCache<String, StoredTexture>)
    ensures
        lru_entries(*final(cache)) == Seq::<(Seq<char>, StoredTexture)>::empty(),
        lru_capacity(*final(cache)) == lru_capacity(*old(cache)),
{
    cache.clear()
}

/// The memory that the textures of some entries need together.
pub open spec fn total_bytes(entries: Seq<(Seq<char>, StoredTexture)>) -> nat
    decreases entries.len(),
{
    if entries.len() == 0 {
        0
    } else {
        total_bytes(entries.drop_last()) + entries.last().1.bytes as nat
    }
}

/// No key occurs twice.
pub open spec fn keys_distinct(entries: Seq<(Seq<char>, StoredTexture)>) -> bool {
    forall|i: int, j: int|
        0 <= i < j < entries.len() ==> (#[trigger] entries[i]).0 != (#[trigger] entries[j]).0
}

/// Taking an entry out takes its memory out.
pub proof fn total_bytes_remove(entries: Seq<(Seq<char>, StoredTexture)>, i: int)
    requires
        0 <= i < entries.len(),
    ensures
        total_bytes(entries.remove(i)) + entries[i].1.bytes == total_bytes(entries),
    decreases entries.len(),
{
    if i == entries.len() - 1 {
        assert(entries.remove(i) =~= entries.drop_last());
    } else {
        assert(entries.remove(i).drop_last() =~= entries.drop_last().remove(i));
        assert(entries.remove(i).last() == entries.last());
        total_bytes_remove(entries.drop_last(), i);
    }
}

/// Putting an entry in front adds its memory.
pub proof fn total_bytes_front(
    entry: (Seq<char>, StoredTexture),
    entries: Seq<(Seq<char>, StoredTexture)>,
)
    ensures
        total_bytes(seq![entry] + entries) == entry.1.bytes + total_bytes(entries),
    decreases entries.len(),
{
    let all = seq![entry] + entries;
    if entries.len() == 0 {
        assert(all.drop_last() =~= Seq::<(Seq<char>, StoredTexture)>::empty());
        assert(total_bytes(all.drop_last()) == 0);
    } else {
        assert(all.drop_last() =~= seq![entry] + entries.drop_last());
        assert(all.last() == entries.last());
        total_bytes_front(entry, entries.drop_last());
    }
}

/// Storing keeps keys distinct, puts the value where it is found again, and
/// accounts for the memory of what comes and what leaves.
pub proof fn stored_properties(
    entries: Seq<(Seq<char>, StoredTexture)>,
    capacity: nat,
    key: Seq<char>,
    value: StoredTexture,
)
    requires
        keys_distinct(entries),
        entries.len() <= capacity,
        capacity > 0,
    ensures
        ({
            let after = stored(entries, capacity, key, value);
            &&& keys_distinct(after)
            &&& 0 < after.len() <= capacity
            &&& value_of(after, key) == Some(value)
            &&& total_bytes(after) + (match displaced(entries, capacity, key) {
                Some(e) => e.1.bytes as nat,
                None => 0,
            }) == total_bytes(entries) + value.bytes
        }),
{
    let after = stored(entries, capacity, key, value);
    if holds(entries, key) {
        total_bytes_remove(entries, place(entries, key));
        total_bytes_front((key, value), entries.remove(place(entries, key)));
    } else if entries.len() == capacity {
        total_bytes_front((key, value), entries.drop_last());
    } else {
        total_bytes_front((key, value), entries);
    }
    assert(after[0] == (key, value));
    assert(holds(after, key));
}

/// Using an entry keeps keys distinct, the number of entries and their memory.
pub proof fn touched_properties(entries: Seq<(Seq<char>, StoredTexture)>, key: Seq<char>)
    requires
        keys_distinct(entries),
    ensures
        keys_distinct(touched(entries, key)),
        touched(entries, key).len() == entries.len(),
        total_bytes(touched(entries, key)) == total_bytes(entries),
        holds(entries, key) ==> touched(entries, key)[0].0 == key,
{
    if holds(entries, key) {
        let i = place(entries, key);
        total_bytes_remove(entries, i);
        total_bytes_front(entries[i], entries.remove(i));
    }
}

/// A texture that is kept is found under its name.
pub proof fn kept_is_found(entries: Seq<(Seq<char>, StoredTexture)>, i: int)
    requires
        keys_distinct(entries),
        0 <= i < entries.len(),
    ensures
        value_of(entries, entries[i].0) == Some(entries[i].1),
{
    let k = place(entries, entries[i].0);
    assert(entries[i].0 == entries[i].0);
    assert(0 <= k < entries.len() && entries[k].0 == entries[i].0);
}

proof fn lemma_without(entries: Seq<(Seq<char>, StoredTexture)>, key: Seq<char>)
    requires
        keys_distinct(entries),
    ensures
        keys_distinct(without(entries, key)),
        forall|i: int|
            0 <= i < without(entries, key).len() ==> (#[trigger] without(entries, key)[i]).0 != key,
        forall|i: int|
            0 <= i < without(entries, key).len() ==> entries.contains(
                #[trigger] without(entries, key)[i],
            ),
        forall|i: int|
            0 <= i < entries.len() && (#[trigger] entries[i]).0 != key ==> without(
                entries,
                key,
            ).contains(entries[i]),
{
    let after = without(entries, key);
    if holds(entries, key) {
        let p = place(entries, key);
        assert(0 <= p < entries.len() && entries[p].0 == key);
        assert forall|i: int| 0 <= i < after.len() implies (#[trigger] after[i]).0 != key
            && entries.contains(after[i]) by {
            let j = if i < p {
                i
            } else {
                i + 1
            };
            assert(after[i] == entries[j]);
        }
        assert forall|i: int| 0 <= i < entries.len() && (#[trigger] entries[i]).0 != key implies after.contains(
            entries[i],
        ) by {
            let j = if i < p {
                i
            } else {
                i - 1
            };
            assert(after[j] == entries[i]);
        }
    } else {
        assert forall|i: int| 0 <= i < after.len() implies (#[trigger] after[i]).0 != key
            && entries.contains(after[i]) by {
            assert(entries[i].0 != key);
        }
        assert forall|i: int| 0 <= i < entries.len() && (#[trigger] entries[i]).0 != key implies after.contains(
            entries[i],
        ) by {
            assert(after[i] == entries[i]);
        }
    }
}

/// What is taken out is no longer found, and everything else is found as before.
pub proof fn only_the_named_is_taken_out(
    entries: Seq<(Seq<char>, StoredTexture)>,
    key: Seq<char>,
    other: Seq<char>,
)
    requires
        keys_distinct(entries),
        other != key,
    ensures
        value_of(without(entries, key), key) is None,
        value_of(without(entries, key), other) == value_of(entries, other),
        without(entries, key).len() == if holds(entries, key) {
            entries.len() - 1
        } else {
            entries.len() as int
        },
{
    let after = without(entries, key);
    lemma_without(entries, key);
    if holds(entries, other) {
        let i = place(entries, other);
        assert(0 <= i < entries.len() && entries[i].0 == other);
        assert(after.contains(entries[i]));
        let j = after.index_of(entries[i]);
        assert(after[j] == entries[i]);
        kept_is_found(entries, i);
        kept_is_found(after, j);
    } else if holds(after, other) {
        let j = place(after, other);
        assert(0 <= j < after.len() && after[j].0 == other);
        assert(entries.contains(after[j]));
        let i = entries.index_of(after[j]);
        assert(entries[i].0 == other);
    }
}

/// What is used comes to the front, and everything is found as before.
pub proof fn using_keeps_everything(
    entries: Seq<(Seq<char>, StoredTexture)>,
    key: Seq<char>,
    other: Seq<char>,
)
    requires
        keys_distinct(entries),
    ensures
        value_of(touched(entries, key), other) == value_of(entries, other),
        holds(entries, key) ==> touched(entries, key)[0].0 == key,
        !holds(entries, key) ==> touched(entries, key) == entries,
{
    let after = touched(entries, key);
    touched_properties(entries, key);
    if holds(entries, key) {
        let p = place(entries, key);
        let rest = without(entries, key);
        assert(0 <= p < entries.len() && entries[p].0 == key);
        assert(after[0] == entries[p]);
        if other == key {
            kept_is_found(after, 0);
            kept_is_found(entries, p);
        } else {
            only_the_named_is_taken_out(entries, key, other);
            lemma_without(entries, key);
            if holds(rest, other) {
                let j = place(rest, other);
                assert(0 <= j < rest.len() && rest[j].0 == other);
                assert(after[j + 1] == rest[j]);
                kept_is_found(rest, j);
                kept_is_found(after, j + 1);
            } else if holds(after, other) {
                let j = place(after, other);
                assert(0 <= j < after.len() && after[j].0 == other);
                assert(after[j] == rest[j - 1]);
            }
        }
    }
}

/// The textures are those of what is kept, in its order.
pub proof fn textures_are_of_what_is_kept(entries: Seq<(Seq<char>, StoredTexture)>, i: int)
    ensures
        textures_of(entries).len() == entries.len(),
        0 <= i < entries.len() ==> textures_of(entries)[i] == entries[i].1.texture,
{
}

} // verus!
