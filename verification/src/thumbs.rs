//! Thumbnail cache engine: content-addressed cache keys, the in-memory
//! hit/failure indexes, the single-run guard for full-library precache
//! passes, and the decode-resize-encode pipeline over bytes.
//!
//! Reading and writing cache files stays with the caller; this module
//! decides names, keys and batch outcomes.

use sha2::Digest;
use crate::text::chars_vec;
use crate::text::digit_char;
use crate::text::seq_eq;
use crate::text::string_from_chars;
use crate::text::views_of_vecs;
use vstd::prelude::*;

verus! {

/// The digest of a byte sequence under the cache's hash; a fixed function
/// of the bytes alone, 32 bytes long.
pub uninterp spec fn sha256_of(data: Seq<u8>) -> Seq<u8>;

/// Relies on sha2's SHA-256: the digest depends on the input bytes alone
/// and is 32 bytes long.
#[verifier::external_body]
pub(crate) fn sha256(data: &Vec<u8>) -> (r: Vec<u8>)
    ensures
        r@ == sha256_of(data@),
        r@.len() == 32,
{
    let mut hasher = sha2::Sha256::new();
    hasher.update(&data[..]);
    hasher.finalize().to_vec()
}

/// Lower-case hex digit of a nibble.
pub open spec fn hex_digit(n: int) -> char {
    if n < 10 {
        digit_char(n)
    } else {
        (87 + n) as u8 as char
    }
}

/// Lower-case hex rendering of a byte sequence, two digits a byte.
pub open spec fn hex_of(bytes: Seq<u8>) -> Seq<char>
    decreases bytes.len(),
{
    if bytes.len() == 0 {
        Seq::empty()
    } else {
        hex_of(bytes.drop_last()) + seq![
            hex_digit(bytes.last() as int / 16),
            hex_digit(bytes.last() as int % 16),
        ]
    }
}

/// Renders bytes as lower-case hex.
pub fn hex_encode(bytes: &Vec<u8>) -> (r: Vec<char>)
    ensures
        r@ == hex_of(bytes@),
{
    let mut r: Vec<char> = Vec::new();
    let mut i: usize = 0;
    proof {
        assert(bytes@.take(0) =~= Seq::<u8>::empty());
    }
    while i < bytes.len()
        invariant
            0 <= i <= bytes@.len(),
            r@ == hex_of(bytes@.take(i as int)),
        decreases bytes.len() - i,
    {
        let b = bytes[i];
        let hi: u8 = b / 16;
        let lo: u8 = b % 16;
        r.push(if hi < 10 {
            (48 + hi) as char
        } else {
            (87 + hi) as char
        });
        r.push(if lo < 10 {
            (48 + lo) as char
        } else {
            (87 + lo) as char
        });
        proof {
            assert(bytes@.take(i + 1).drop_last() =~= bytes@.take(i as int));
            assert(bytes@.take(i + 1).last() == bytes@[i as int]);
        }
        i += 1;
    }
    proof {
        assert(bytes@.take(bytes@.len() as int) =~= bytes@);
    }
    r
}

/// The version tag baked into every cache key: changing the thumbnail
/// format or size changes this tag and so orphans the whole old cache.
pub open spec fn cache_version_tag() -> Seq<char> {
    "thumb-v2:"@
}

/// The cache key of a source path: the hex digest, truncated to 32
/// digits, of the version tag followed by the path.
pub open spec fn cache_key_spec(path: Seq<char>) -> Seq<char> {
    let digest = sha256_of(crate::text::encode_key_bytes(cache_version_tag() + path));
    hex_of(digest.take(16))
}

/// Computes the cache key of a canonicalized source path.
pub fn cache_key(path: &str) -> (r: String)
    ensures
        r@ == cache_key_spec(path@),
{
    let mut tagged = chars_vec("thumb-v2:");
    crate::text::append_vec(&mut tagged, &chars_vec(path));
    proof {
        assert(tagged@ =~= cache_version_tag() + path@);
    }
    let bytes = crate::text::utf8_bytes(&tagged);
    let digest = sha256(&bytes);
    let head = crate::text::subrange_bytes(&digest, 0, 16);
    proof {
        assert(head@ =~= sha256_of(crate::text::encode_key_bytes(cache_version_tag()
            + path@)).take(16));
    }
    string_from_chars(&hex_encode(&head))
}

/// The cache key is a pure function of the path string and the version
/// tag: identical across repeated calls and process restarts, with no
/// lookup needed to compute it.
pub proof fn lemma_cache_key_stable(a: Seq<char>, b: Seq<char>)
    requires
        a == b,
    ensures
        cache_key_spec(a) == cache_key_spec(b),
{
}

/// The cache file names of a source path: current format first, the
/// legacy extension second.
pub fn thumbnail_file_names(path: &str) -> (r: (String, String))
    ensures
        r.0@ == cache_key_spec(path@) + ".jpg"@,
        r.1@ == cache_key_spec(path@) + ".webp"@,
{
    let key = cache_key(path);
    let mut jpg = chars_vec(key.as_str());
    crate::text::append_vec(&mut jpg, &chars_vec(".jpg"));
    let mut webp = chars_vec(key.as_str());
    crate::text::append_vec(&mut webp, &chars_vec(".webp"));
    (string_from_chars(&jpg), string_from_chars(&webp))
}

// ─────────────────────── in-memory indexes ───────────────────────

/// An in-memory set of path or key strings: the cache-hit index and the
/// known-failed index the application consults before decoding.
pub struct PathSet {
    pub entries: Vec<Vec<char>>,
}

impl PathSet {
    pub open spec fn wf(&self) -> bool {
        crate::tags::strictly_sorted(views_of_vecs(self.entries@))
    }

    pub open spec fn set(&self) -> Set<Seq<char>> {
        views_of_vecs(self.entries@).to_set()
    }

    pub fn new() -> (r: PathSet)
        ensures
            r.wf(),
            r.set() =~= Set::<Seq<char>>::empty(),
    {
        let r = PathSet { entries: Vec::new() };
        proof {
            assert(views_of_vecs(r.entries@) =~= Seq::<Seq<char>>::empty());
        }
        r
    }

    pub fn contains(&self, path: &str) -> (r: bool)
        ensures
            r == self.set().contains(path@),
    {
        let pv = chars_vec(path);
        let mut i: usize = 0;
        while i < self.entries.len()
            invariant
                0 <= i <= self.entries@.len(),
                pv@ == path@,
                forall|j: int| 0 <= j < i ==> views_of_vecs(self.entries@)[j] != path@,
            decreases self.entries.len() - i,
        {
            if seq_eq(&self.entries[i], &pv) {
                proof {
                    assert(views_of_vecs(self.entries@)[i as int] == path@);
                    assert(views_of_vecs(self.entries@).contains(path@));
                }
                return true;
            }
            i += 1;
        }
        proof {
            if self.set().contains(path@) {
                let j = choose|j: int|
                    0 <= j < views_of_vecs(self.entries@).len() && views_of_vecs(
                        self.entries@,
                    )[j] == path@;
            }
        }
        false
    }

    /// Records a path; a second insert of the same path changes nothing.
    pub fn insert(&mut self, path: &str)
        requires
            old(self).wf(),
        ensures
            final(self).wf(),
            final(self).set() =~= old(self).set().insert(path@),
    {
        crate::tags::tag_insert(&mut self.entries, chars_vec(path));
    }

    /// Drops a path, as callers must the moment a file is deleted, moved
    /// or successfully regenerated.
    pub fn remove(&mut self, path: &str)
        requires
            old(self).wf(),
        ensures
            final(self).wf(),
            final(self).set() =~= old(self).set().remove(path@),
    {
        let pv = chars_vec(path);
        let ghost pre = views_of_vecs(self.entries@);
        let mut out: Vec<Vec<char>> = Vec::new();
        let mut i: usize = 0;
        proof {
            assert(views_of_vecs(out@) =~= Seq::<Seq<char>>::empty());
        }
        while i < self.entries.len()
            invariant
                0 <= i <= self.entries@.len(),
                pv@ == path@,
                pre == views_of_vecs(self.entries@),
                crate::tags::strictly_sorted(pre),
                views_of_vecs(out@).to_set() =~= pre.take(i as int).to_set().remove(path@),
                crate::tags::strictly_sorted(views_of_vecs(out@)),
                forall|p: int|
                    0 <= p < views_of_vecs(out@).len() ==> exists|w: int|
                        0 <= w < i && pre[w] == #[trigger] views_of_vecs(out@)[p],
            decreases self.entries.len() - i,
        {
            let ghost pre_out = views_of_vecs(out@);
            if !seq_eq(&self.entries[i], &pv) {
                let mut copied: Vec<char> = Vec::new();
                crate::text::append_vec(&mut copied, &self.entries[i]);
                out.push(copied);
                proof {
                    assert(views_of_vecs(out@) =~~= pre_out.push(pre[i as int]));
                    assert forall|p: int|
                        0 <= p < views_of_vecs(out@).len() implies exists|w: int|
                            0 <= w < i + 1 && pre[w] == #[trigger] views_of_vecs(out@)[p] by {
                        if p < pre_out.len() {
                            let w = choose|w: int| 0 <= w < i && pre[w] == pre_out[p];
                        } else {
                            assert(pre[i as int] == views_of_vecs(out@)[p]);
                        }
                    }
                    assert forall|p: int, q: int|
                        0 <= p < q < views_of_vecs(out@).len() implies crate::text::lex_le(
                        views_of_vecs(out@)[p],
                        views_of_vecs(out@)[q],
                    ) && views_of_vecs(out@)[p] != views_of_vecs(out@)[q] by {
                        if q == views_of_vecs(out@).len() - 1 {
                            assert(views_of_vecs(out@)[p] == pre_out[p]);
                            let w = choose|w: int| 0 <= w < i && pre[w] == pre_out[p];
                            assert(crate::tags::strictly_sorted(pre));
                            assert(crate::text::lex_le(pre[w], pre[i as int]) && pre[w]
                                != pre[i as int]);
                        } else {
                            assert(views_of_vecs(out@)[p] == pre_out[p]);
                            assert(views_of_vecs(out@)[q] == pre_out[q]);
                        }
                    }
                    assert(views_of_vecs(out@).to_set() =~= pre.take(i + 1).to_set().remove(
                        path@,
                    )) by {
                        assert(pre.take(i + 1) =~= pre.take(i as int).push(pre[i as int]));
                        Seq::lemma_to_set_insert_commutes(pre.take(i as int), pre[i as int]);
                        assert(pre.take(i as int).push(pre[i as int]) =~= pre.take(i as int)
                            + seq![pre[i as int]]);
                        Seq::lemma_to_set_insert_commutes(pre_out, pre[i as int]);
                        assert(pre_out.push(pre[i as int]) =~= pre_out + seq![pre[i as int]]);
                    }
                }
            } else {
                proof {
                    assert(views_of_vecs(self.entries@)[i as int] == path@);
                    assert(pre.take(i + 1) =~= pre.take(i as int).push(pre[i as int]));
                    Seq::lemma_to_set_insert_commutes(pre.take(i as int), pre[i as int]);
                    assert(pre.take(i as int).push(pre[i as int]) =~= pre.take(i as int) + seq![
                        pre[i as int],
                    ]);
                    assert(views_of_vecs(out@).to_set() =~= pre.take(i + 1).to_set().remove(
                        path@,
                    ));
                }
            }
            i += 1;
        }
        proof {
            assert(pre.take(pre.len() as int) =~= pre);
        }
        self.entries = out;
    }
}

// ─────────────────────── single-run guard ───────────────────────

/// The run flag that admits at most one full-library precache pass at a
/// time. A second start is rejected until the first pass finishes.
pub struct PrecacheGate {
    pub running: bool,
}

impl PrecacheGate {
    pub fn new() -> (r: PrecacheGate)
        ensures
            !r.running,
    {
        PrecacheGate { running: false }
    }

    /// Tries to start a pass: succeeds exactly when none is running, and
    /// then holds the flag.
    pub fn try_start(&mut self) -> (started: bool)
        ensures
            started == !old(self).running,
            final(self).running,
    {
        if self.running {
            false
        } else {
            self.running = true;
            true
        }
    }

    /// Releases the flag on any exit path of the worker.
    pub fn finish(&mut self)
        ensures
            !final(self).running,
    {
        self.running = false;
    }
}

// ─────────────────────── precache planning ───────────────────────

/// What a precache pass will do per source path, judged from the
/// cache-hit index: paths with a cached key are skipped, the rest are
/// pending.
pub struct PrecachePlan {
    pub pending: Vec<String>,
    pub skipped: usize,
}

/// Plans a full-library precache pass: on an empty library the plan is
/// empty, nothing is pending, and a completion report of zeroes follows
/// without any filesystem write.
pub fn plan_precache(all_paths: &Vec<String>, cached: &PathSet) -> (plan: PrecachePlan)
    ensures
        plan.pending@.len() + plan.skipped == all_paths@.len(),
        all_paths@.len() == 0 ==> plan.pending@.len() == 0 && plan.skipped == 0,
        exists|srcs: Seq<int>| plan_sources_ok(all_paths@, cached.set(), srcs, plan.pending@),
{
    let mut pending: Vec<String> = Vec::new();
    let mut srcs: Ghost<Seq<int>> = Ghost(Seq::empty());
    let mut skipped: usize = 0;
    let mut i: usize = 0;
    while i < all_paths.len()
        invariant
            0 <= i <= all_paths@.len(),
            pending@.len() + skipped == i,
            srcs@.len() == pending@.len(),
            forall|p: int| 0 <= p < srcs@.len() ==> 0 <= #[trigger] srcs@[p] < all_paths@.len(),
            forall|p: int|
                0 <= p < srcs@.len() ==> pending@[p] == all_paths@[#[trigger] srcs@[p]],
            forall|p: int|
                0 <= p < srcs@.len() ==> !cached.set().contains(
                    cache_key_spec(all_paths@[#[trigger] srcs@[p]]@),
                ),
            forall|p: int, q: int| 0 <= p < q < srcs@.len() ==> srcs@[p] < srcs@[q],
            forall|p: int| 0 <= p < srcs@.len() ==> #[trigger] srcs@[p] < i,
            forall|x: int|
                0 <= x < i && !cached.set().contains(
                    cache_key_spec(#[trigger] all_paths@[x]@),
                ) ==> srcs@.contains(x),
        decreases all_paths.len() - i,
    {
        let key = cache_key(all_paths[i].as_str());
        let ghost pre_srcs = srcs@;
        if cached.contains(key.as_str()) {
            skipped += 1;
            proof {
                assert forall|x: int|
                    0 <= x < i + 1 && !cached.set().contains(
                        cache_key_spec(#[trigger] all_paths@[x]@),
                    ) implies srcs@.contains(x) by {
                    assert(x != i);
                }
            }
        } else {
            pending.push(all_paths[i].clone());
            srcs = Ghost(pre_srcs.push(i as int));
            proof {
                assert(!cached.set().contains(cache_key_spec(all_paths@[i as int]@)));
                assert forall|x: int|
                    0 <= x < i + 1 && !cached.set().contains(
                        cache_key_spec(#[trigger] all_paths@[x]@),
                    ) implies srcs@.contains(x) by {
                    if x == i {
                        assert(srcs@[srcs@.len() - 1] == x);
                    } else {
                        assert(pre_srcs.contains(x));
                        let p = choose|p: int| 0 <= p < pre_srcs.len() && pre_srcs[p] == x;
                        assert(srcs@[p] == x);
                    }
                }
            }
        }
        i += 1;
    }
    proof {
        assert(plan_sources_ok(all_paths@, cached.set(), srcs@, pending@));
    }
    PrecachePlan { pending, skipped }
}

/// The pending list holds exactly the source paths whose cache key is
/// not yet indexed, in source order: `srcs` ascends and covers every
/// uncached index, so paths already cached are skipped and all the rest
/// are pending.
pub open spec fn plan_sources_ok(
    all_paths: Seq<String>,
    cached: Set<Seq<char>>,
    srcs: Seq<int>,
    pending: Seq<String>,
) -> bool {
    &&& pending.len() == srcs.len()
    &&& forall|p: int| 0 <= p < srcs.len() ==> 0 <= #[trigger] srcs[p] < all_paths.len()
    &&& forall|p: int, q: int| 0 <= p < q < srcs.len() ==> srcs[p] < srcs[q]
    &&& forall|p: int| 0 <= p < srcs.len() ==> pending[p] == all_paths[#[trigger] srcs[p]]
    &&& forall|p: int|
        0 <= p < srcs.len() ==> !cached.contains(cache_key_spec(all_paths[#[trigger] srcs[p]]@))
    &&& forall|i: int|
        0 <= i < all_paths.len() && !cached.contains(cache_key_spec(#[trigger] all_paths[i]@))
            ==> srcs.contains(i)
}

/// The counts a completed precache pass reports.
pub struct PrecacheOutcome {
    pub total: usize,
    pub generated: usize,
    pub skipped: usize,
    pub failed: usize,
}

/// Builds the completion report of a pass: every source was generated,
/// skipped or failed, so the counts partition the total; an empty library
/// reports all zeroes.
pub fn precache_outcome(total: usize, skipped: usize, generated: usize, failed: usize) -> (r:
    PrecacheOutcome)
    requires
        generated + failed + skipped == total,
    ensures
        r.total == total,
        r.generated == generated,
        r.skipped == skipped,
        r.failed == failed,
        total == 0 ==> r.total == 0 && r.generated == 0 && r.skipped == 0 && r.failed == 0,
{
    PrecacheOutcome { total, generated, skipped, failed }
}

// ─────────────────────── pixel pipeline ───────────────────────

/// The JPEG preview of an encoded source image at a given quality: a
/// fixed function of the bytes and the quality alone, `None` where the
/// source does not decode or the result does not encode.
pub uninterp spec fn thumb_jpeg_of(data: Seq<u8>, quality: u8) -> Option<Seq<u8>>;

/// Relies on image::load_from_memory, image::DynamicImage::resize (into
/// the fixed preview bounding box, aspect ratio kept), to_rgb8 and
/// image's JpegEncoder: one decode-resize-encode pass, deterministic in
/// its inputs.
#[verifier::external_body]
fn thumb_jpeg(data: &Vec<u8>, quality: u8) -> (r: Option<Vec<u8>>)
    ensures
        match r {
            Some(out) => thumb_jpeg_of(data@, quality) == Some(out@),
            None => thumb_jpeg_of(data@, quality) is None,
        },
{
    let img = image::load_from_memory(&data[..]).ok()?;
    let small = img.resize(400, 400, image::imageops::FilterType::Lanczos3);
    let rgb = small.to_rgb8();
    let mut out: Vec<u8> = Vec::new();
    let mut cursor = std::io::Cursor::new(&mut out);
    let encoder = image::codecs::jpeg::JpegEncoder::new_with_quality(&mut cursor, quality);
    rgb.write_with_encoder(encoder).ok()?;
    Some(out)
}

/// Decodes source bytes, resizes them into the preview bounding box and
/// re-encodes as JPEG; `None` exactly when the source cannot be decoded
/// or the result not encoded, which callers record in the failed-source
/// index.
pub fn render_thumbnail(data: &Vec<u8>, quality: u8) -> (r: Option<Vec<u8>>)
    ensures
        match r {
            Some(out) => thumb_jpeg_of(data@, quality) == Some(out@),
            None => thumb_jpeg_of(data@, quality) is None,
        },
{
    thumb_jpeg(data, quality)
}

/// Hex rendering doubles the length.
pub proof fn lemma_hex_len(bytes: Seq<u8>)
    ensures
        hex_of(bytes).len() == 2 * bytes.len(),
    decreases bytes.len(),
{
    if bytes.len() > 0 {
        lemma_hex_len(bytes.drop_last());
    }
}

/// Resolves one batch entry: the cached thumbnail when its key is already
/// indexed, else the freshly generated path, else the source path itself
/// as the sentinel meaning no thumbnail is available and the caller
/// should render the source directly.
pub fn resolve_thumbnail_entry(source: &str, cached_path: Option<&str>, generated: Option<&str>)
    -> (r: String)
    ensures
        r@ == match cached_path {
            Some(c) => c@,
            None => match generated {
                Some(g) => g@,
                None => source@,
            },
        },
{
    match cached_path {
        Some(c) => c.to_owned(),
        None => match generated {
            Some(g) => g.to_owned(),
            None => source.to_owned(),
        },
    }
}

} // verus!
