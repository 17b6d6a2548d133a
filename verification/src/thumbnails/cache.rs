//! The thumbnail cache: textures in memory up to a limit, JPEG files on disk,
//! both found by a hash of path, modification time and size.
use vstd::prelude::*;
use vstd::string::*;
use vstd::utf8::encode_utf8;

use crate::hashing::{little_endian, push_little_endian, xxh3, xxh3_64};
use crate::paths::{join, joined};
use crate::text::{hex_char, hex_digits, push_hex};
use crate::texture_lru::{
    holds, keys_distinct, lru_capacity, lru_clear, lru_contains, lru_entries, lru_get, lru_len,
    lru_new, lru_pop, lru_pop_last, lru_push, lru_textures, stored, stored_properties, textures_of,
    total_bytes, total_bytes_remove, touched, touched_properties, value_of, without, StoredTexture,
};
use crate::thumbnails::generator::DEFAULT_THUMB_HEIGHT;

verus! {

/// Least memory limit in megabytes.
pub const MIN_MEMORY_MB: usize = 64;

/// Greatest memory limit in megabytes.
pub const MAX_MEMORY_MB: usize = 512;

/// To be raised when thumbnails come to be made in another way.
pub const THUMB_CACHE_VERSION: u8 = 2;

/// Number of textures kept at most.
pub const DEFAULT_LRU_CAPACITY: usize = 2048;

/// A thumbnail ready for display.
#[derive(Clone, Copy, PartialEq, Eq, Structural, Debug)]
pub struct CachedThumbnail {
    /// The number by which the toolkit side finds the texture.
    pub texture: u64,
    pub width: u32,
    pub height: u32,
    /// The memory that the texture is taken to need.
    pub memory_bytes: usize,
}

impl CachedThumbnail {
    /// A thumbnail of the given size, at four bytes per pixel.
    pub fn new(texture: u64, width: u32, height: u32) -> (r: Self)
        requires
            4 * width * height <= usize::MAX,
        ensures
            r.texture == texture,
            r.width == width,
            r.height == height,
            r.memory_bytes == 4 * width * height,
    {
        assert(width * height <= 4 * width * height) by (nonlinear_arith);
        assert(4 * width * height == width * height * 4) by (nonlinear_arith);
        let memory_bytes: usize = (width as usize) * (height as usize) * 4;
        CachedThumbnail { texture, width, height, memory_bytes }
    }

    spec fn as_stored(self) -> StoredTexture {
        StoredTexture {
            texture: self.texture,
            width: self.width,
            height: self.height,
            bytes: self.memory_bytes,
            full: false,
        }
    }

    fn to_stored(self) -> (r: StoredTexture)
        ensures
            r == self.as_stored(),
    {
        StoredTexture {
            texture: self.texture,
            width: self.width,
            height: self.height,
            bytes: self.memory_bytes,
            full: false,
        }
    }
}

/// The thumbnail that an entry of the memory cache stands for.
pub open spec fn thumbnail_of_entry(e: StoredTexture) -> CachedThumbnail {
    CachedThumbnail { texture: e.texture, width: e.width, height: e.height, memory_bytes: e.bytes }
}

fn from_stored(e: StoredTexture) -> (r: CachedThumbnail)
    ensures
        r == thumbnail_of_entry(e),
{
    CachedThumbnail { texture: e.texture, width: e.width, height: e.height, memory_bytes: e.bytes }
}

/// What a key is hashed from: the version, the path, the modification time and
/// the size.
pub open spec fn key_bytes(path: Seq<char>, mtime: i64, size: i64) -> Seq<u8> {
    seq![THUMB_CACHE_VERSION] + encode_utf8(path) + little_endian(mtime as u64) + little_endian(
        size as u64,
    )
}

/// The name of the file that keeps the thumbnail with the given hash.
pub open spec fn disk_name(hash: u64) -> Seq<char> {
    hex_digits(hash as nat, 16) + ".jpg"@
}

/// Which file, in which state, a thumbnail belongs to.
#[derive(Clone, Copy, PartialEq, Eq, Structural, Debug)]
pub struct CacheKey {
    /// Hash of path, modification time and size.
    pub hash: u64,
}

impl CacheKey {
    /// The key of a file.
    pub fn new(path: &str, mtime: i64, size: i64) -> (r: Self)
        ensures
            r.hash == xxh3(key_bytes(path@, mtime, size)),
    {
        CacheKey { hash: Self::compute_hash(path, mtime, size) }
    }

    fn compute_hash(path: &str, mtime: i64, size: i64) -> (r: u64)
        ensures
            r == xxh3(key_bytes(path@, mtime, size)),
    {
        let mut data: Vec<u8> = Vec::new();
        data.push(THUMB_CACHE_VERSION);
        let bytes = path.as_bytes();
        let mut i: usize = 0;
        while i < bytes.len()
            invariant
                bytes@ == path.spec_bytes(),
                i <= bytes@.len(),
                data@ == seq![THUMB_CACHE_VERSION] + bytes@.take(i as int),
            decreases bytes@.len() - i,
        {
            data.push(bytes[i]);
            i = i + 1;
            assert(data@ =~= seq![THUMB_CACHE_VERSION] + bytes@.take(i as int));
        }
        assert(bytes@.take(bytes@.len() as int) =~= path.spec_bytes());
        push_little_endian(&mut data, mtime as u64);
        push_little_endian(&mut data, size as u64);
        xxh3_64(&data)
    }

    /// The name of the file that keeps the thumbnail.
    pub fn disk_filename(&self) -> (r: String)
        ensures
            r@ == disk_name(self.hash),
    {
        let mut out = String::new();
        push_hex(&mut out, self.hash, 16);
        out.push_str(".jpg");
        assert(out@ =~= disk_name(self.hash));
        out
    }
}

proof fn lemma_hex_digits_len(n: nat, width: nat)
    ensures
        hex_digits(n, width).len() == width,
    decreases width,
{
    if width > 0 {
        lemma_hex_digits_len(n / 16, (width - 1) as nat);
    }
}

/// Sixteen to the given power.
pub open spec fn power16(k: nat) -> nat
    decreases k,
{
    if k == 0 {
        1
    } else {
        16 * power16((k - 1) as nat)
    }
}

proof fn lemma_hex_digits_injective(a: nat, b: nat, width: nat)
    requires
        a < power16(width),
        b < power16(width),
        hex_digits(a, width) == hex_digits(b, width),
    ensures
        a == b,
    decreases width,
{
    if width > 0 {
        let da = hex_digits(a, width);
        let db = hex_digits(b, width);
        assert(da.last() == hex_char(a % 16));
        assert(db.last() == hex_char(b % 16));
        assert(da.drop_last() =~= hex_digits(a / 16, (width - 1) as nat));
        assert(db.drop_last() =~= hex_digits(b / 16, (width - 1) as nat));
        lemma_hex_digits_injective(a / 16, b / 16, (width - 1) as nat);
    }
}

/// Thumbnails with different hashes are kept in different files.
pub proof fn disk_names_are_distinct(a: u64, b: u64)
    requires
        a != b,
    ensures
        disk_name(a) != disk_name(b),
{
    lemma_hex_digits_len(a as nat, 16);
    lemma_hex_digits_len(b as nat, 16);
    if disk_name(a) == disk_name(b) {
        assert(disk_name(a).take(16) =~= hex_digits(a as nat, 16));
        assert(disk_name(b).take(16) =~= hex_digits(b as nat, 16));
        assert(power16(16) == 0x1_0000_0000_0000_0000) by {
            reveal_with_fuel(power16, 17);
        }
        lemma_hex_digits_injective(a as nat, b as nat, 16);
    }
}

/// The entries that stay when the least recently used ones make room for
/// `needed` more bytes under `limit`.
pub open spec fn after_eviction(
    entries: Seq<(Seq<char>, StoredTexture)>,
    needed: nat,
    limit: nat,
) -> Seq<(Seq<char>, StoredTexture)>
    decreases entries.len(),
{
    if entries.len() > 0 && total_bytes(entries) + needed > limit {
        after_eviction(entries.drop_last(), needed, limit)
    } else {
        entries
    }
}

/// The entries after a thumbnail is added: room is made first.
pub open spec fn after_add(
    entries: Seq<(Seq<char>, StoredTexture)>,
    limit: nat,
    key: Seq<char>,
    value: StoredTexture,
) -> Seq<(Seq<char>, StoredTexture)> {
    stored(
        after_eviction(entries, value.bytes as nat, limit),
        DEFAULT_LRU_CAPACITY as nat,
        key,
        value,
    )
}

/// Whether entries keep to a limit: together they do, unless there is only one, which
/// alone exceeds it.
pub open spec fn keeps_limit(entries: Seq<(Seq<char>, StoredTexture)>, limit: nat) -> bool {
    total_bytes(entries) <= limit || (entries.len() == 1 && entries[0].1.bytes > limit)
}

/// What retrieving a thumbnail asks for next.
#[derive(Debug)]
pub enum Retrieval {
    /// The thumbnail is at hand.
    Ready(CachedThumbnail),
    /// Look whether the thumbnail file exists.
    ProbeDisk(String),
    /// Load the thumbnail file.
    LoadDisk(String),
    /// Delete the broken thumbnail file, then make the thumbnail.
    DiscardAndGenerate(String),
    /// Make the thumbnail and store it under the given path.
    Generate(String),
    /// There is no thumbnail to be had.
    Failed,
}

/// The thumbnail cache. It keeps textures in memory, least recently used ones
/// leaving first, and knows where thumbnails are on disk.
pub struct ThumbnailCache {
    cache_dir: String,
    max_memory_bytes: usize,
    current_memory_bytes: usize,
    memory_cache: lru::LruCache<String, StoredTexture>,
    thumb_height: u32,
}

impl ThumbnailCache {
    /// The entries in memory, most recently used first, by file name.
    pub closed spec fn entries(self) -> Seq<(Seq<char>, StoredTexture)> {
        lru_entries(self.memory_cache)
    }

    /// The memory limit in bytes.
    pub closed spec fn limit(self) -> nat {
        self.max_memory_bytes as nat
    }

    /// The memory in use, as it is counted.
    pub closed spec fn usage(self) -> nat {
        self.current_memory_bytes as nat
    }

    /// The directory of thumbnail files.
    pub closed spec fn dir(self) -> Seq<char> {
        self.cache_dir@
    }

    /// The height that thumbnails are made for.
    pub closed spec fn height(self) -> u32 {
        self.thumb_height
    }

    /// No file occurs twice, there are no more entries than the cache is made
    /// for, the memory in use is that of the entries, and it is within the limit unless
    /// a single thumbnail exceeds that alone.
    pub open spec fn wf(self) -> bool {
        &&& keys_distinct(self.entries())
        &&& self.entries().len() <= DEFAULT_LRU_CAPACITY
        &&& self.usage() == total_bytes(self.entries())
        &&& self.usage() <= usize::MAX
        &&& keeps_limit(self.entries(), self.limit())
        &&& MIN_MEMORY_MB * 1048576 <= self.limit() <= MAX_MEMORY_MB * 1048576
        &&& self.capacity() == DEFAULT_LRU_CAPACITY
    }

    /// The number of entries that the memory cache was made for.
    pub closed spec fn capacity(self) -> nat {
        lru_capacity(self.memory_cache)
    }

    /// Everything but the entries and the memory in use is as in `other`.
    pub open spec fn same_settings(self, other: Self) -> bool {
        self.limit() == other.limit() && self.dir() == other.dir() && self.height()
            == other.height()
    }

    /// An empty cache over the given directory; the memory limit, in megabytes,
    /// is kept between the least and the greatest.
    pub fn new(cache_dir: String, max_memory_mb: usize) -> (r: Self)
        ensures
            r.wf(),
            r.entries().len() == 0,
            r.dir() == cache_dir@,
            r.height() == DEFAULT_THUMB_HEIGHT,
            r.limit() == (if max_memory_mb < MIN_MEMORY_MB {
                MIN_MEMORY_MB
            } else if max_memory_mb > MAX_MEMORY_MB {
                MAX_MEMORY_MB
            } else {
                max_memory_mb
            }) * 1048576,
    {
        let mb: usize = if max_memory_mb < MIN_MEMORY_MB {
            MIN_MEMORY_MB
        } else if max_memory_mb > MAX_MEMORY_MB {
            MAX_MEMORY_MB
        } else {
            max_memory_mb
        };
        ThumbnailCache {
            cache_dir,
            max_memory_bytes: mb * 1048576,
            current_memory_bytes: 0,
            memory_cache: lru_new(DEFAULT_LRU_CAPACITY),
            thumb_height: DEFAULT_THUMB_HEIGHT,
        }
    }

    /// Sets the height that thumbnails are made for.
    pub fn set_thumb_height(&mut self, height: u32)
        requires
            old(self).wf(),
        ensures
            final(self).wf(),
            final(self).height() == height,
            final(self).entries() == old(self).entries(),
            final(self).limit() == old(self).limit(),
            final(self).dir() == old(self).dir(),
    {
        self.thumb_height = height;
    }

    /// The height that thumbnails are made for.
    pub fn thumb_height(&self) -> (r: u32)
        ensures
            r == self.height(),
    {
        self.thumb_height
    }

    /// The memory in use, in bytes.
    pub fn memory_usage(&self) -> (r: usize)
        requires
            self.wf(),
        ensures
            r == total_bytes(self.entries()),
            self.entries().len() == 0 ==> r == 0,
            (forall|i: int|
                0 <= i < self.entries().len() ==> (#[trigger] self.entries()[i]).1.bytes
                    <= self.limit()) ==> r <= self.limit(),
    {
        self.current_memory_bytes
    }

    /// The textures in memory, most recently used first.
    pub fn textures(&self) -> (r: Vec<u64>)
        ensures
            r@ == textures_of(self.entries()),
    {
        lru_textures(&self.memory_cache)
    }

    /// The number of thumbnails in memory.
    pub fn memory_entry_count(&self) -> (r: usize)
        ensures
            r == self.entries().len(),
    {
        lru_len(&self.memory_cache)
    }

    /// The memory limit in bytes.
    pub fn max_memory(&self) -> (r: usize)
        ensures
            r == self.limit(),
    {
        self.max_memory_bytes
    }

    /// The directory of thumbnail files.
    pub fn cache_dir(&self) -> (r: &String)
        ensures
            r@ == self.dir(),
    {
        &self.cache_dir
    }

    /// Where the thumbnail with the given key is kept on disk.
    pub fn disk_path(&self, key: &CacheKey) -> (r: String)
        ensures
            r@ == joined(self.dir(), disk_name(key.hash)),
    {
        join(&self.cache_dir, &key.disk_filename())
    }

    /// Looks a thumbnail up in memory, which counts as a use of it.
    pub fn get_from_memory(&mut self, key: &CacheKey) -> (r: Option<CachedThumbnail>)
        requires
            old(self).wf(),
        ensures
            final(self).wf(),
            final(self).same_settings(*old(self)),
            final(self).entries() == touched(old(self).entries(), disk_name(key.hash)),
            r == match value_of(old(self).entries(), disk_name(key.hash)) {
                Some(e) => Some(thumbnail_of_entry(e)),
                None => None,
            },
    {
        proof {
            touched_properties(self.entries(), disk_name(key.hash));
        }
        match lru_get(&mut self.memory_cache, &key.disk_filename()) {
            Some(e) => Some(from_stored(e)),
            None => None,
        }
    }

    /// Whether a thumbnail is in memory; this is no use of it.
    pub fn in_memory(&self, key: &CacheKey) -> (r: bool)
        ensures
            r == holds(self.entries(), disk_name(key.hash)),
    {
        lru_contains(&self.memory_cache, &key.disk_filename())
    }

    /// Whether a thumbnail is in the cache, in memory or else on disk.
    pub fn contains(&self, path: &str, mtime: i64, size: i64, on_disk: bool) -> (r: bool)
        ensures
            r == (holds(self.entries(), disk_name(xxh3(key_bytes(path@, mtime, size)))) || on_disk),
    {
        let key = CacheKey::new(path, mtime, size);
        self.in_memory(&key) || on_disk
    }

    /// Lets the least recently used thumbnails go until `needed` more bytes fit
    /// under the limit, or none is left.
    pub fn evict_if_needed(&mut self, needed: usize)
        requires
            old(self).wf(),
        ensures
            final(self).wf(),
            final(self).same_settings(*old(self)),
            final(self).entries() == after_eviction(
                old(self).entries(),
                needed as nat,
                old(self).limit(),
            ),
    {
        let ghost start = self.entries();
        let ghost limit = self.limit();
        loop
            invariant
                self.wf(),
                self.same_settings(*old(self)),
                limit == self.limit(),
                after_eviction(self.entries(), needed as nat, limit) == after_eviction(
                    start,
                    needed as nat,
                    limit,
                ),
            ensures
                self.entries() == after_eviction(start, needed as nat, limit),
            decreases self.entries().len(),
        {
            if self.current_memory_bytes <= self.max_memory_bytes && needed <= self.max_memory_bytes
                - self.current_memory_bytes {
                break;
            }
            match lru_pop_last(&mut self.memory_cache) {
                Some((_, evicted)) => {
                    self.current_memory_bytes = self.current_memory_bytes - evicted.bytes;
                },
                None => {
                    break;
                },
            }
        }
    }

    /// Adds a thumbnail to memory, making room for it first.
    pub fn add_to_memory_cache(&mut self, key: &CacheKey, cached: CachedThumbnail)
        requires
            old(self).wf(),
        ensures
            final(self).wf(),
            final(self).same_settings(*old(self)),
            final(self).entries() == after_add(
                old(self).entries(),
                old(self).limit(),
                disk_name(key.hash),
                StoredTexture {
                    texture: cached.texture,
                    width: cached.width,
                    height: cached.height,
                    bytes: cached.memory_bytes,
                    full: false,
                },
            ),
    {
        self.evict_if_needed(cached.memory_bytes);
        proof {
            lemma_after_eviction_fits(
                old(self).entries(),
                cached.memory_bytes as nat,
                old(self).limit(),
            );
            stored_properties(
                self.entries(),
                DEFAULT_LRU_CAPACITY as nat,
                disk_name(key.hash),
                cached.as_stored(),
            );
            added_thumbnail_is_found(
                old(self).entries(),
                old(self).limit(),
                disk_name(key.hash),
                cached.as_stored(),
            );
            let kept = self.entries();
            if holds(kept, disk_name(key.hash)) {
                total_bytes_remove(kept, crate::texture_lru::place(kept, disk_name(key.hash)));
            }
        }
        let displaced_entry = lru_push(
            &mut self.memory_cache,
            key.disk_filename(),
            cached.to_stored(),
        );
        if let Some((_, old_entry)) = displaced_entry {
            self.current_memory_bytes = self.current_memory_bytes - old_entry.bytes;
        }
        self.current_memory_bytes = self.current_memory_bytes + cached.memory_bytes;
    }

    /// Starts retrieving a thumbnail: from memory, else by looking on disk.
    pub fn get_or_generate(&mut self, path: &str, mtime: i64, size: i64) -> (r: Retrieval)
        requires
            old(self).wf(),
        ensures
            final(self).wf(),
            final(self).same_settings(*old(self)),
            ({
                let name = disk_name(xxh3(key_bytes(path@, mtime, size)));
                &&& final(self).entries() == touched(old(self).entries(), name)
                &&& match value_of(old(self).entries(), name) {
                    Some(e) => r == Retrieval::Ready(thumbnail_of_entry(e)),
                    None => r matches Retrieval::ProbeDisk(p) && p@ == joined(
                        old(self).dir(),
                        name,
                    ),
                }
            }),
    {
        let key = CacheKey::new(path, mtime, size);
        match self.get_from_memory(&key) {
            Some(cached) => Retrieval::Ready(cached),
            None => Retrieval::ProbeDisk(self.disk_path(&key)),
        }
    }

    /// Goes on once it is known whether the thumbnail file exists.
    pub fn after_probe(&self, key: &CacheKey, found: bool) -> (r: Retrieval)
        ensures
            found ==> (r matches Retrieval::LoadDisk(p) && p@ == joined(
                self.dir(),
                disk_name(key.hash),
            )),
            !found ==> (r matches Retrieval::Generate(p) && p@ == joined(
                self.dir(),
                disk_name(key.hash),
            )),
    {
        let path = self.disk_path(key);
        if found {
            Retrieval::LoadDisk(path)
        } else {
            Retrieval::Generate(path)
        }
    }

    /// Goes on once loading the thumbnail file gave a thumbnail, or failed.
    pub fn after_disk_load(&mut self, key: &CacheKey, loaded: Option<CachedThumbnail>) -> (r:
        Retrieval)
        requires
            old(self).wf(),
        ensures
            final(self).wf(),
            final(self).same_settings(*old(self)),
            match loaded {
                Some(cached) => {
                    &&& r == Retrieval::Ready(cached)
                    &&& final(self).entries() == after_add(
                        old(self).entries(),
                        old(self).limit(),
                        disk_name(key.hash),
                        StoredTexture {
                            texture: cached.texture,
                            width: cached.width,
                            height: cached.height,
                            bytes: cached.memory_bytes,
                            full: false,
                        },
                    )
                },
                None => {
                    &&& r matches Retrieval::DiscardAndGenerate(p) && p@ == joined(
                        old(self).dir(),
                        disk_name(key.hash),
                    )
                    &&& final(self).entries() == old(self).entries()
                },
            },
    {
        match loaded {
            Some(cached) => {
                self.add_to_memory_cache(key, cached);
                Retrieval::Ready(cached)
            },
            None => Retrieval::DiscardAndGenerate(self.disk_path(key)),
        }
    }

    /// Ends once making the thumbnail gave one, or failed.
    pub fn after_generate(&mut self, key: &CacheKey, generated: Option<CachedThumbnail>) -> (r:
        Retrieval)
        requires
            old(self).wf(),
        ensures
            final(self).wf(),
            final(self).same_settings(*old(self)),
            match generated {
                Some(cached) => {
                    &&& r == Retrieval::Ready(cached)
                    &&& final(self).entries() == after_add(
                        old(self).entries(),
                        old(self).limit(),
                        disk_name(key.hash),
                        StoredTexture {
                            texture: cached.texture,
                            width: cached.width,
                            height: cached.height,
                            bytes: cached.memory_bytes,
                            full: false,
                        },
                    )
                },
                None => r == Retrieval::Failed && final(self).entries() == old(self).entries(),
            },
    {
        match generated {
            Some(cached) => {
                self.add_to_memory_cache(key, cached);
                Retrieval::Ready(cached)
            },
            None => Retrieval::Failed,
        }
    }

    /// Brings a thumbnail into memory: nothing to do where it is there already,
    /// else the thumbnail that was loaded from disk, if any, is added. Tells
    /// whether it is in memory then.
    pub fn preload(&mut self, key: &CacheKey, loaded: Option<CachedThumbnail>) -> (r: bool)
        requires
            old(self).wf(),
        ensures
            final(self).wf(),
            final(self).same_settings(*old(self)),
            r == (holds(old(self).entries(), disk_name(key.hash)) || loaded is Some),
            holds(old(self).entries(), disk_name(key.hash)) || loaded is None
                ==> final(self).entries() == old(self).entries(),
            !holds(old(self).entries(), disk_name(key.hash)) ==> (loaded matches Some(cached)
                ==> final(self).entries() == after_add(
                old(self).entries(),
                old(self).limit(),
                disk_name(key.hash),
                StoredTexture {
                    texture: cached.texture,
                    width: cached.width,
                    height: cached.height,
                    bytes: cached.memory_bytes,
                    full: false,
                },
            )),
    {
        if self.in_memory(key) {
            return true;
        }
        match loaded {
            Some(cached) => {
                self.add_to_memory_cache(key, cached);
                true
            },
            None => false,
        }
    }

    /// Takes a thumbnail out of memory; tells whether it was there, or was
    /// deleted on disk.
    pub fn remove(&mut self, path: &str, mtime: i64, size: i64, disk_removed: bool) -> (r: bool)
        requires
            old(self).wf(),
        ensures
            final(self).wf(),
            final(self).same_settings(*old(self)),
            ({
                let name = disk_name(xxh3(key_bytes(path@, mtime, size)));
                &&& final(self).entries() == without(old(self).entries(), name)
                &&& r == (holds(old(self).entries(), name) || disk_removed)
            }),
    {
        let key = CacheKey::new(path, mtime, size);
        let name = key.disk_filename();
        proof {
            if holds(self.entries(), name@) {
                total_bytes_remove(
                    self.entries(),
                    crate::texture_lru::place(self.entries(), name@),
                );
            }
        }
        let memory_removed = match lru_pop(&mut self.memory_cache, &name) {
            Some(evicted) => {
                self.current_memory_bytes = self.current_memory_bytes - evicted.bytes;
                true
            },
            None => false,
        };
        memory_removed || disk_removed
    }

    /// Takes every thumbnail out of memory.
    pub fn clear_memory(&mut self)
        requires
            old(self).wf(),
        ensures
            final(self).wf(),
            final(self).same_settings(*old(self)),
            final(self).entries().len() == 0,
    {
        lru_clear(&mut self.memory_cache);
        self.current_memory_bytes = 0;
    }
}

proof fn lemma_after_eviction_fits(
    entries: Seq<(Seq<char>, StoredTexture)>,
    needed: nat,
    limit: nat,
)
    ensures
        ({
            let kept = after_eviction(entries, needed, limit);
            &&& kept.len() <= entries.len()
            &&& kept =~= entries.take(kept.len() as int)
            &&& kept.len() == 0 || total_bytes(kept) + needed <= limit
        }),
    decreases entries.len(),
{
    if entries.len() > 0 && total_bytes(entries) + needed > limit {
        lemma_after_eviction_fits(entries.drop_last(), needed, limit);
    }
}

/// Adding a thumbnail makes it the first to be found, keeps the most recently
/// used of the others, and leaves the memory in use within the limit unless the
/// added thumbnail alone exceeds it.
pub proof fn added_thumbnail_is_found(
    entries: Seq<(Seq<char>, StoredTexture)>,
    limit: nat,
    key: Seq<char>,
    value: StoredTexture,
)
    requires
        keys_distinct(entries),
        entries.len() <= DEFAULT_LRU_CAPACITY,
    ensures
        ({
            let after = after_add(entries, limit, key, value);
            &&& value_of(after, key) == Some(value)
            &&& after[0] == (key, value)
            &&& keys_distinct(after)
            &&& total_bytes(after) <= limit || (after.len() == 1 && value.bytes > limit)
        }),
{
    let kept = after_eviction(entries, value.bytes as nat, limit);
    lemma_after_eviction_fits(entries, value.bytes as nat, limit);
    assert(keys_distinct(kept));
    stored_properties(kept, DEFAULT_LRU_CAPACITY as nat, key, value);
    if kept.len() == 0 {
        assert(total_bytes(kept) == 0);
    }
}

/// The number that hexadecimal digits in lower case write, the most significant first.
pub open spec fn hex_number(s: Seq<char>) -> nat
    decreases s.len(),
{
    if s.len() == 0 {
        0
    } else {
        let c = s.last();
        hex_number(s.drop_last()) * 16 + (if '0' <= c <= '9' {
            c as nat - '0' as nat
        } else {
            c as nat - 'a' as nat + 10
        }) as nat
    }
}

proof fn lemma_hex_reads_back(n: nat, width: nat)
    requires
        n < power16(width),
    ensures
        hex_number(hex_digits(n, width)) == n,
        forall|i: int|
            0 <= i < width ==> {
                let c = #[trigger] hex_digits(n, width)[i];
                '0' <= c <= '9' || 'a' <= c <= 'f'
            },
    decreases width,
{
    lemma_hex_digits_len(n, width);
    if width > 0 {
        let rest = (width - 1) as nat;
        lemma_hex_digits_len(n / 16, rest);
        lemma_hex_reads_back(n / 16, rest);
        assert(hex_digits(n, width).drop_last() =~= hex_digits(n / 16, rest));
    }
}

/// The file of a thumbnail is named by the hash, in sixteen hexadecimal digits of lower
/// case, the most significant first, and as a JPEG.
pub proof fn disk_name_writes_the_hash(hash: u64)
    ensures
        disk_name(hash).len() == 20,
        hex_number(disk_name(hash).take(16)) == hash,
        forall|i: int|
            0 <= i < 16 ==> {
                let c = #[trigger] disk_name(hash)[i];
                '0' <= c <= '9' || 'a' <= c <= 'f'
            },
        disk_name(hash).skip(16) == ".jpg"@,
{
    reveal_strlit(".jpg");
    reveal_with_fuel(power16, 17);
    lemma_hex_digits_len(hash as nat, 16);
    lemma_hex_reads_back(hash as nat, 16);
    assert(disk_name(hash).take(16) =~= hex_digits(hash as nat, 16));
    assert(disk_name(hash).skip(16) =~= ".jpg"@);
    assert forall|i: int| 0 <= i < 16 implies {
        let c = #[trigger] disk_name(hash)[i];
        '0' <= c <= '9' || 'a' <= c <= 'f'
    } by {
        assert(disk_name(hash)[i] == hex_digits(hash as nat, 16)[i]);
    }
}

/// What is hashed is the version, the path, and behind it the modification time and the
/// size, so that a file that has changed has another key.
pub proof fn key_goes_by_path_time_and_size(
    path: Seq<char>,
    mtime: i64,
    size: i64,
    other_mtime: i64,
    other_size: i64,
)
    ensures
        ({
            let key = key_bytes(path, mtime, size);
            let n = encode_utf8(path).len() as int;
            &&& key.len() == n + 17
            &&& key[0] == 2
            &&& key.subrange(1, n + 1) == encode_utf8(path)
            &&& key.subrange(n + 1, n + 9) == little_endian(mtime as u64)
            &&& key.subrange(n + 9, n + 17) == little_endian(size as u64)
        }),
        key_bytes(path, mtime, size) == key_bytes(path, other_mtime, other_size) ==> mtime
            == other_mtime && size == other_size,
{
    let key = key_bytes(path, mtime, size);
    let n = encode_utf8(path).len() as int;
    crate::hashing::little_endian_tells_numbers_apart(mtime as u64, other_mtime as u64);
    crate::hashing::little_endian_tells_numbers_apart(size as u64, other_size as u64);
    crate::hashing::little_endian_tells_numbers_apart(other_mtime as u64, other_mtime as u64);
    crate::hashing::little_endian_tells_numbers_apart(other_size as u64, other_size as u64);
    assert(key.subrange(1, n + 1) =~= encode_utf8(path));
    assert(key.subrange(n + 1, n + 9) =~= little_endian(mtime as u64));
    assert(key.subrange(n + 9, n + 17) =~= little_endian(size as u64));
    let other = key_bytes(path, other_mtime, other_size);
    assert(other.subrange(n + 1, n + 9) =~= little_endian(other_mtime as u64));
    assert(other.subrange(n + 9, n + 17) =~= little_endian(other_size as u64));
    if key == other {
        assert(mtime as u64 == other_mtime as u64);
        assert(mtime == other_mtime) by (bit_vector)
            requires
                mtime as u64 == other_mtime as u64,
        ;
        assert(size == other_size) by (bit_vector)
            requires
                size as u64 == other_size as u64,
        ;
    }
}

/// Making room lets go of the least recently used thumbnails only, and of no more than
/// it must: those that stay leave the room that is needed, and with the last one that
/// went they would not.
pub proof fn eviction_keeps_what_it_can(
    entries: Seq<(Seq<char>, StoredTexture)>,
    needed: nat,
    limit: nat,
)
    ensures
        ({
            let kept = after_eviction(entries, needed, limit);
            &&& kept.len() <= entries.len()
            &&& kept == entries.take(kept.len() as int)
            &&& kept.len() == 0 || total_bytes(kept) + needed <= limit
            &&& kept.len() < entries.len() ==> total_bytes(entries.take(kept.len() as int + 1)) + needed
                > limit
        }),
    decreases entries.len(),
{
    let kept = after_eviction(entries, needed, limit);
    lemma_after_eviction_fits(entries, needed, limit);
    if entries.len() > 0 && total_bytes(entries) + needed > limit {
        eviction_keeps_what_it_can(entries.drop_last(), needed, limit);
        if kept.len() < entries.len() - 1 {
            assert(entries.drop_last().take(kept.len() as int + 1) =~= entries.take(kept.len() as int + 1));
        } else {
            assert(entries.take(kept.len() as int + 1) =~= entries);
        }
    } else {
        assert(entries.take(entries.len() as int) =~= entries);
    }
}

/// A thumbnail that is put into memory comes back as it was.
pub proof fn kept_thumbnail_is_the_same(cached: CachedThumbnail, full: bool)
    ensures
        thumbnail_of_entry(
            (StoredTexture {
                texture: cached.texture,
                width: cached.width,
                height: cached.height,
                bytes: cached.memory_bytes,
                full,
            }),
        ) == cached,
{
}

/// Between 64 and 512 megabytes of thumbnails are kept in memory, 2048 thumbnails at most, and
/// the files are of the second version.
pub proof fn limits_of_the_cache()
    ensures
        MIN_MEMORY_MB == 64,
        MAX_MEMORY_MB == 512,
        DEFAULT_LRU_CAPACITY == 2048,
        THUMB_CACHE_VERSION == 2,
{
}

} // verus!
