//! Thumbnails: what can go wrong, the pixels the shell hands back, and when
//! a "no thumbnail" answer may be given again without asking.

use std::sync::Arc;

use vstd::prelude::*;

use crate::text::{concat_str, string_of_str};

verus! {

/// Why a thumbnail could not be given.
#[derive(Debug, Clone, PartialEq, Eq)]
pub enum ThumbError {
    /// The file has no thumbnail: asking again is useless.
    Unavailable,
    /// The queue is full, the user scrolls faster than the disk keeps up:
    /// asking again is exactly right.
    Busy,
    /// Windows refused, with its reason.
    Shell(String),
    /// The pixels could not be read.
    Pixels,
    /// The PNG could not be encoded, with the reason.
    Encode(String),
}

impl ThumbError {
    /// What the user is told.
    pub fn message(&self) -> (r: String)
        ensures
            r@ == match self {
                ThumbError::Unavailable => "không có thumbnail cho tệp này"@,
                ThumbError::Busy => "hàng đợi thumbnail đang đầy"@,
                ThumbError::Shell(s) => "Windows từ chối dựng thumbnail: "@ + s@,
                ThumbError::Pixels => "không đọc được điểm ảnh của thumbnail"@,
                ThumbError::Encode(s) => "không mã hoá được ảnh PNG: "@ + s@,
            },
    {
        match self {
            ThumbError::Unavailable => string_of_str("không có thumbnail cho tệp này"),
            ThumbError::Busy => string_of_str("hàng đợi thumbnail đang đầy"),
            ThumbError::Shell(s) => concat_str("Windows từ chối dựng thumbnail: ", s.as_str()),
            ThumbError::Pixels => string_of_str("không đọc được điểm ảnh của thumbnail"),
            ThumbError::Encode(s) => concat_str("không mã hoá được ảnh PNG: ", s.as_str()),
        }
    }
}

/// Thumbnails kept in memory.
pub const CACHE_ENTRIES: usize = 512;

/// Concurrent decoders: a miss is dominated by reading the file, and four
/// requests already keep a disk busy.
pub const WORKERS: usize = 4;

/// Pending requests held before new ones are refused as busy.
pub const QUEUE_DEPTH: usize = 64;

/// How long a "no thumbnail" answer is remembered, in milliseconds.
pub const MISS_TTL_MS: u64 = 60_000;

/// "No thumbnail" answers remembered.
pub const MISS_ENTRIES: usize = 2048;

/// What a remembered "no thumbnail" answer means now.
#[derive(Debug, Clone, Copy, PartialEq, Eq)]
pub enum MissState {
    /// Nothing remembered: ask the workers.
    Unknown,
    /// Remembered and still fresh: the answer is "no thumbnail", at once.
    Remembered,
    /// Remembered too long ago: forget it and ask again.
    Stale,
}

/// A miss recorded at `recorded` (milliseconds, if any), seen at `now`.
pub fn miss_state(recorded: Option<u64>, now: u64) -> (r: MissState)
    ensures
        r == match recorded {
            None => MissState::Unknown,
            Some(t) => if now < t || now - t < MISS_TTL_MS {
                MissState::Remembered
            } else {
                MissState::Stale
            },
        },
{
    match recorded {
        None => MissState::Unknown,
        Some(t) => {
            if now < t || now - t < MISS_TTL_MS {
                MissState::Remembered
            } else {
                MissState::Stale
            }
        },
    }
}

/// Only a genuine "no thumbnail" is remembered; a busy refusal or a passing
/// failure must stay retryable.
pub fn remember_miss(e: &ThumbError) -> (r: bool)
    ensures
        r == (*e is Unavailable),
{
    match e {
        ThumbError::Unavailable => true,
        _ => false,
    }
}

/// The pixel at `p` of the shell's BGRA rows, as RGBA; alpha forced opaque
/// when the whole image came back fully transparent.
pub open spec fn rgba_at(bgra: Seq<u8>, i: int, opaque: bool) -> u8 {
    let base = i - i % 4;
    if i % 4 == 0 {
        bgra[base + 2]
    } else if i % 4 == 2 {
        bgra[base]
    } else if i % 4 == 3 && opaque {
        255
    } else {
        bgra[i]
    }
}

/// Every alpha byte is 0.
pub open spec fn all_transparent(bgra: Seq<u8>) -> bool {
    forall|p: int| 0 <= p < bgra.len() / 4 ==> #[trigger] bgra[4 * p + 3] == 0
}

/// Turn GDI's BGRA rows into the RGBA encoders expect. Shell thumbnails of
/// formats without transparency often leave alpha at zero, which would make
/// the whole image invisible: a fully transparent result is made opaque.
pub fn rgba_from_bgra(buf: &mut Vec<u8>)
    requires
        old(buf)@.len() % 4 == 0,
    ensures
        final(buf)@.len() == old(buf)@.len(),
        forall|i: int|
            0 <= i < old(buf)@.len() ==> #[trigger] final(buf)@[i] == rgba_at(
                old(buf)@,
                i,
                all_transparent(old(buf)@),
            ),
{
    let ghost b0 = buf@;
    let n = buf.len();
    let pixels = n / 4;
    let mut clear = true;
    let mut k: usize = 0;
    while k < pixels
        invariant
            n == b0.len(),
            n % 4 == 0,
            pixels == n / 4,
            k <= pixels,
            buf@ == b0,
            clear == (forall|q: int| 0 <= q < k ==> #[trigger] b0[4 * q + 3] == 0),
        decreases pixels - k,
    {
        if buf[4 * k + 3] != 0 {
            clear = false;
        }
        k += 1;
    }
    assert(clear == all_transparent(b0));
    let mut k: usize = 0;
    while k < pixels
        invariant
            n == b0.len(),
            n % 4 == 0,
            pixels == n / 4,
            k <= pixels,
            buf@.len() == n,
            clear == all_transparent(b0),
            forall|i: int| 0 <= i < 4 * k ==> #[trigger] buf@[i] == rgba_at(b0, i, clear),
            forall|i: int| 4 * k <= i < n ==> #[trigger] buf@[i] == b0[i],
        decreases pixels - k,
    {
        let at = 4 * k;
        let b = buf[at];
        let r = buf[at + 2];
        buf.set(at, r);
        buf.set(at + 2, b);
        if clear {
            buf.set(at + 3, 255);
        }
        assert forall|i: int| 0 <= i < 4 * (k + 1) implies #[trigger] buf@[i] == rgba_at(b0, i, clear) by {
            if i >= 4 * k {
                assert(i - i % 4 == 4 * k);
            }
        }
        k += 1;
    }
}


/// The PNG the `image` crate writes for a `width`×`height` image of RGBA
/// bytes (fast compression, adaptive filtering), or `None` when it reports an
/// error.
pub uninterp spec fn png_of(width: u32, height: u32, rgba: Seq<u8>) -> Option<Seq<u8>>;

/// `image::ImageEncoder::write_image` of a `PngEncoder` (fast compression,
/// adaptive filter) on 8-bit RGBA: the PNG bytes, or the encoder's error as
/// its message. The encoder panics when the buffer is not exactly four bytes
/// a pixel, so that is required; which bytes come out, and when the encoder
/// fails, is named, not stated.
#[verifier::external_body]
fn write_png(width: u32, height: u32, rgba: &[u8]) -> (r: Result<Vec<u8>, ThumbError>)
    requires
        rgba@.len() == width as int * height as int * 4,
    ensures
        match png_of(width, height, rgba@) {
            Some(b) => r matches Ok(v) && v@ == b,
            None => r matches Err(ThumbError::Encode(_)),
        },
{
    let mut png = Vec::new();
    let encoder = image::codecs::png::PngEncoder::new_with_quality(
        &mut png,
        image::codecs::png::CompressionType::Fast,
        image::codecs::png::FilterType::Adaptive,
    );
    match image::ImageEncoder::write_image(encoder, rgba, width, height, image::ExtendedColorType::Rgba8) {
        Ok(()) => Ok(png),
        Err(e) => Err(ThumbError::Encode(e.to_string())),
    }
}

/// Encode a thumbnail's RGBA pixels as PNG. Pixels that are not four bytes
/// for each of `width`×`height` cannot be an image of that size: `Pixels`.
pub fn encode_png(width: u32, height: u32, rgba: &[u8]) -> (r: Result<Vec<u8>, ThumbError>)
    ensures
        rgba@.len() != width as int * height as int * 4 ==> r == Err::<Vec<u8>, ThumbError>(ThumbError::Pixels),
        rgba@.len() == width as int * height as int * 4 ==> match png_of(width, height, rgba@) {
            Some(b) => r matches Ok(v) && v@ == b,
            None => r matches Err(ThumbError::Encode(_)),
        },
{
    assert((width as int) * (height as int) * 4 <= 0xFFFF_FFFF * 0xFFFF_FFFF * 4) by (nonlinear_arith)
        requires
            width <= 0xFFFF_FFFFu32,
            height <= 0xFFFF_FFFFu32,
    ;
    let want = (width as u128) * (height as u128) * 4;
    if rgba.len() as u128 != want {
        return Err(ThumbError::Pixels);
    }
    write_png(width, height, rgba)
}


/// `lru::LruCache`, the thumbnails kept in memory.
#[verifier::external_type_specification]
#[verifier::external_body]
#[verifier::reject_recursive_types(K)]
#[verifier::reject_recursive_types(V)]
#[verifier::reject_recursive_types(S)]
pub struct ExLruCache<K, V, S>(lru::LruCache<K, V, S>);

/// `lru::DefaultHasher`, the hasher an `LruCache` is made with.
#[verifier::external_type_specification]
#[verifier::external_body]
pub struct ExLruHasher(lru::DefaultHasher);

/// A thumbnail's key: the file's id and the size asked for.
pub type ThumbKey = (u64, u32);

/// The cache type of the thumbnails: (file id, size) to PNG bytes.
pub type ThumbLru = lru::LruCache<(u64, u32), Arc<Vec<u8>>>;

/// The thumbnails an `LruCache` holds: (file id, size) to PNG bytes.
pub uninterp spec fn thumbs_held(c: ThumbLru) -> Map<ThumbKey, Seq<u8>>;

/// How many thumbnails it was made to hold.
pub uninterp spec fn thumbs_cap(c: ThumbLru) -> nat;

/// No thumbnails at all.
pub open spec fn no_thumbs() -> Map<ThumbKey, Seq<u8>> {
    Map::empty()
}

/// `LruCache::new` with room for [`CACHE_ENTRIES`] thumbnails: empty.
#[verifier::external_body]
fn lru_new() -> (r: ThumbLru)
    ensures
        thumbs_held(r) == no_thumbs(),
        thumbs_cap(r) == CACHE_ENTRIES,
{
    lru::LruCache::new(std::num::NonZeroUsize::new(CACHE_ENTRIES).unwrap())
}

/// `LruCache::get`, cloned: the thumbnail held under `k`, if any. The entry
/// becomes the most recently used; what the cache holds does not change.
#[verifier::external_body]
fn lru_get(c: &mut ThumbLru, k: ThumbKey) -> (r: Option<Arc<Vec<u8>>>)
    ensures
        thumbs_held(*final(c)) == thumbs_held(*old(c)),
        thumbs_cap(*final(c)) == thumbs_cap(*old(c)),
        match r {
            Some(v) => thumbs_held(*old(c)).contains_key(k) && v@ == thumbs_held(*old(c))[k],
            None => !thumbs_held(*old(c)).contains_key(k),
        },
{
    c.get(&k).cloned()
}

/// `LruCache::put`: `k` now holds `v`. A key already held, or a cache not
/// yet full, loses nothing; a full cache drops one other entry (the least
/// recently used, which is not named here).
#[verifier::external_body]
fn lru_put(c: &mut ThumbLru, k: ThumbKey, v: Arc<Vec<u8>>)
    ensures
        thumbs_cap(*final(c)) == thumbs_cap(*old(c)),
        thumbs_held(*old(c)).contains_key(k) || thumbs_held(*old(c)).dom().len() < thumbs_cap(*old(c))
            ==> thumbs_held(*final(c)) == thumbs_held(*old(c)).insert(k, v@),
        !(thumbs_held(*old(c)).contains_key(k) || thumbs_held(*old(c)).dom().len() < thumbs_cap(*old(c)))
            ==> exists|e: ThumbKey|
            e != k && thumbs_held(*old(c)).contains_key(e) && thumbs_held(*final(c)) == thumbs_held(*old(c)).insert(
                k,
                v@,
            ).remove(e),
{
    c.put(k, v);
}

/// The thumbnails kept in memory, by file id and size.
pub struct ThumbCache {
    lru: ThumbLru,
}

impl ThumbCache {
    pub closed spec fn held(&self) -> Map<ThumbKey, Seq<u8>> {
        thumbs_held(self.lru)
    }

    pub closed spec fn cap(&self) -> nat {
        thumbs_cap(self.lru)
    }

    /// An empty cache with room for [`CACHE_ENTRIES`] thumbnails.
    pub fn new() -> (r: ThumbCache)
        ensures
            r.held() == no_thumbs(),
            r.cap() == CACHE_ENTRIES,
    {
        ThumbCache { lru: lru_new() }
    }

    /// The thumbnail of file `id` at `size` pixels, when one is kept.
    pub fn cached(&mut self, id: u64, size: u32) -> (r: Option<Arc<Vec<u8>>>)
        ensures
            final(self).held() == old(self).held(),
            final(self).cap() == old(self).cap(),
            match r {
                Some(v) => old(self).held().contains_key((id, size)) && v@ == old(self).held()[(id, size)],
                None => !old(self).held().contains_key((id, size)),
            },
    {
        lru_get(&mut self.lru, (id, size))
    }

    /// What rendering gave, kept when it is a thumbnail: a failure is not
    /// cached (the miss cache deals with those), so the next request tries
    /// again.
    pub fn keep(&mut self, id: u64, size: u32, result: Result<Vec<u8>, ThumbError>) -> (r: Result<Arc<Vec<u8>>, ThumbError>)
        ensures
            final(self).cap() == old(self).cap(),
            match result {
                Ok(png) => {
                    &&& r matches Ok(v) && v@ == png@
                    &&& final(self).held().contains_key((id, size))
                    &&& final(self).held()[(id, size)] == png@
                    &&& (old(self).held().contains_key((id, size)) || old(self).held().dom().len() < old(self).cap())
                        ==> final(self).held() == old(self).held().insert((id, size), png@)
                },
                Err(e) => r == Err::<Arc<Vec<u8>>, ThumbError>(e) && final(self).held() == old(self).held(),
            },
    {
        match result {
            Ok(png) => {
                let v = Arc::new(png);
                let w = crate::media::ffcache::share(&v);
                lru_put(&mut self.lru, (id, size), w);
                Ok(v)
            },
            Err(e) => Err(e),
        }
    }
}

} // verus!
