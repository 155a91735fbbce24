use vstd::prelude::*;

verus! {

use crate::text::str_eq;
use vstd::pervasive::VecAdditionalExecFns;
use vstd::string::StringExecFns;

// The data types of the blob-storage interface. The storage backends
// themselves move bytes over asynchronous streams, which is plain I/O
// plumbing and lives outside this library's verified core.
/// The key under which a blob is stored.
#[derive(Clone, Debug)]
pub struct BlobKey {
    inner: String,
}

impl View for BlobKey {
    type V = Seq<char>;

    closed spec fn view(&self) -> Seq<char> {
        self.inner@
    }
}

impl BlobKey {
    /// Create a new blob key.
    pub fn new(key: &str) -> (r: BlobKey)
        ensures
            r@ == key@,
    {
        BlobKey { inner: key.to_owned() }
    }

    /// Get the key as a string slice.
    pub fn as_str(&self) -> (r: &str)
        ensures
            r@ == self@,
    {
        self.inner.as_str()
    }

    /// Convert into the inner string.
    pub fn into_inner(self) -> (r: String)
        ensures
            r@ == self@,
    {
        self.inner
    }
}

impl PartialEq for BlobKey {
    fn eq(&self, other: &BlobKey) -> (r: bool) {
        str_eq(self.inner.as_str(), other.inner.as_str())
    }
}

impl Eq for BlobKey {

}

impl vstd::std_specs::cmp::PartialEqSpecImpl for BlobKey {
    open spec fn obeys_eq_spec() -> bool {
        true
    }

    open spec fn eq_spec(&self, other: &BlobKey) -> bool {
        self@ == other@
    }
}

/// Metadata associated with one stored blob.
#[derive(Clone, Debug)]
pub struct BlobMetadata {
    /// Size of the blob in bytes.
    pub size: u64,
    /// Entity tag for versioning and caching, where the backend provides one.
    pub etag: Option<String>,
    /// Last-modified timestamp, where the backend provides one.
    pub last_modified: Option<String>,
}

/// Options for uploading blobs.
#[derive(Clone, Debug)]
pub struct UploadOptions {
    /// Whether to overwrite an existing blob; when false, uploading onto an
    /// existing key is an error.
    pub overwrite: bool,
}

impl Default for UploadOptions {
    /// By default an upload refuses to overwrite.
    fn default() -> (r: UploadOptions)
        ensures
            !r.overwrite,
    {
        UploadOptions { overwrite: false }
    }
}

/// A single entry of a listing.
#[derive(Clone, Debug)]
pub struct BlobEntry {
    /// The blob's key.
    pub key: BlobKey,
    /// Size in bytes.
    pub size: u64,
    /// Last-modified timestamp, if available.
    pub last_modified: Option<String>,
    /// Entity tag, if available.
    pub etag: Option<String>,
}

/// Errors of the in-memory blob store. Backends that move bytes over real
/// transports extend this taxonomy with their transport failures.
#[derive(Clone, Debug)]
pub enum BlobStorageError {
    /// No blob is stored under the key.
    NotFound(BlobKey),
    /// A blob is already stored under the key and overwriting was not
    /// requested.
    AlreadyExists(BlobKey),
    /// Invalid input (for example, a duration out of range).
    InvalidInput(String),
}

// ---------------------------------------------------------------------------
// The in-memory blob store.
// ---------------------------------------------------------------------------
/// The lowercase hexadecimal MD5 digest of a byte sequence, as the md5 crate
/// computes it.
pub uninterp spec fn md5_hex_of(data: Seq<u8>) -> Seq<char>;

/// Relies on `md5::compute` and the digest's lower-hex formatting: the
/// digest depends on the bytes alone and prints as 32 hex characters.
#[verifier::external_body]
fn md5_hex(data: &Vec<u8>) -> (r: String)
    ensures
        r@ == md5_hex_of(data@),
        r@.len() == 32,
{
    format!("{:x}", md5::compute(data.as_slice()))
}

/// The RFC 3339 text of a moment given as seconds since the Unix epoch, in
/// UTC, as chrono renders it.
pub uninterp spec fn rfc3339_utc_of(secs: u64) -> Seq<char>;

/// Relies on chrono's `DateTime::from_timestamp` and `to_rfc3339`: the text
/// depends on the seconds alone (UTC, no local zone involved).
#[verifier::external_body]
fn rfc3339_utc(secs: u64) -> (r: String)
    ensures
        r@ == rfc3339_utc_of(secs),
{
    chrono::DateTime::from_timestamp(secs as i64, 0).map(|t| t.to_rfc3339()).unwrap_or_default()
}

/// Relies on std's `SystemTime`: the clock's seconds since the Unix epoch.
/// Nothing is promised of the value.
#[verifier::external_body]
fn now_unix_secs() -> u64 {
    std::time::SystemTime::now()
        .duration_since(std::time::UNIX_EPOCH)
        .map(|d| d.as_secs())
        .unwrap_or(0)
}

/// One stored blob: the bytes, the content digest, and the upload time.
pub struct StoredBlob {
    /// The blob's bytes.
    pub data: Vec<u8>,
    /// The lower-hex MD5 digest of the bytes.
    pub etag: String,
    /// The RFC 3339 upload timestamp.
    pub last_modified: String,
}

/// One slot of the store: a key and the blob under it.
pub struct BlobSlot {
    /// The blob's key.
    pub key: String,
    /// The stored blob.
    pub blob: StoredBlob,
}

/// No two slots share a key.
pub open spec fn blob_keys_distinct(es: Seq<BlobSlot>) -> bool {
    forall|a: int, b: int|
        0 <= a < b < es.len() ==> (#[trigger] es[a]).key@ != (#[trigger] es[b]).key@
}

/// Some slot holds key `k`.
pub open spec fn has_blob(es: Seq<BlobSlot>, k: Seq<char>) -> bool {
    exists|i: int| 0 <= i < es.len() && (#[trigger] es[i]).key@ == k
}

/// The position of the slot holding key `k` (meaningful when `has_blob`
/// holds and keys are distinct).
pub open spec fn blob_slot(es: Seq<BlobSlot>, k: Seq<char>) -> int {
    choose|i: int| 0 <= i < es.len() && (#[trigger] es[i]).key@ == k
}

/// The bytes stored under key `k`.
pub open spec fn blob_data(es: Seq<BlobSlot>, k: Seq<char>) -> Seq<u8> {
    es[blob_slot(es, k)].blob.data@
}

/// The digest stored under key `k`.
pub open spec fn blob_etag(es: Seq<BlobSlot>, k: Seq<char>) -> Seq<char> {
    es[blob_slot(es, k)].blob.etag@
}

/// With distinct keys, the slot at position `i` is the one the lookups read
/// for its key.
proof fn lemma_blob_slot(es: Seq<BlobSlot>, i: int)
    requires
        blob_keys_distinct(es),
        0 <= i < es.len(),
    ensures
        has_blob(es, es[i].key@),
        blob_slot(es, es[i].key@) == i,
{
    assert(has_blob(es, es[i].key@));
    let s = blob_slot(es, es[i].key@);
    assert(0 <= s < es.len() && es[s].key@ == es[i].key@);
    if s != i {
        assert(false);
    }
}

/// In-memory blob storage: blobs in insertion order under distinct keys,
/// with content digests computed at upload time. The byte-stream plumbing
/// around it (collecting request streams, serving response streams, locking)
/// belongs to the embedding application.
pub struct BlobStorageMemory {
    slots: Vec<BlobSlot>,
}

impl View for BlobStorageMemory {
    type V = Seq<BlobSlot>;

    closed spec fn view(&self) -> Seq<BlobSlot> {
        self.slots@
    }
}

impl BlobStorageMemory {
    /// The store's invariant: distinct keys, and every stored digest is the
    /// digest of the stored bytes.
    pub open spec fn inv(&self) -> bool {
        &&& blob_keys_distinct(self@)
        &&& forall|i: int|
            0 <= i < self@.len() ==> (#[trigger] self@[i]).blob.etag@ == md5_hex_of(
                self@[i].blob.data@,
            )
    }

    /// Creates a new empty in-memory blob storage.
    pub fn new() -> (r: Self)
        ensures
            r@ == Seq::<BlobSlot>::empty(),
            r.inv(),
    {
        BlobStorageMemory { slots: Vec::new() }
    }

    /// The number of blobs currently stored.
    pub fn len(&self) -> (r: usize)
        ensures
            r == self@.len(),
    {
        self.slots.len()
    }

    /// Whether no blobs are stored.
    pub fn is_empty(&self) -> (r: bool)
        ensures
            r == (self@.len() == 0),
    {
        self.slots.len() == 0
    }

    /// Clears all stored blobs.
    pub fn clear(&mut self)
        ensures
            final(self).inv(),
            final(self)@ == Seq::<BlobSlot>::empty(),
    {
        self.slots = Vec::new();
    }

    /// Find the slot holding `key`, if any.
    fn find_slot(&self, key: &str) -> (r: Option<usize>)
        ensures
            match r {
                Some(i) => i < self@.len() && self@[i as int].key@ == key@,
                None => !has_blob(self@, key@),
            },
    {
        let mut i: usize = 0;
        while i < self.slots.len()
            invariant
                0 <= i <= self@.len(),
                forall|j: int| 0 <= j < i ==> (#[trigger] self@[j]).key@ != key@,
            decreases self@.len() - i,
        {
            if str_eq(self.slots[i].key.as_str(), key) {
                return Some(i);
            }
            i = i + 1;
        }
        None
    }

    /// Whether a blob is stored under `key`.
    pub fn exists_blob(&self, key: &BlobKey) -> (r: bool)
        ensures
            r == has_blob(self@, key@),
    {
        match self.find_slot(key.as_str()) {
            Some(i) => {
                proof {
                    assert(has_blob(self@, key@));
                }
                true
            },
            None => false,
        }
    }

    /// Store `data` under `key`. When a blob already sits under the key,
    /// `options.overwrite` decides between replacing it and failing; a
    /// failed upload changes nothing. The stored digest is the bytes' MD5
    /// digest; the timestamp is taken from the clock.
    pub fn put(&mut self, key: &BlobKey, data: Vec<u8>, options: &UploadOptions) -> (r: Result<
        (),
        BlobStorageError,
    >)
        requires
            old(self).inv(),
        ensures
            final(self).inv(),
            match r {
                Ok(()) => {
                    &&& (has_blob(old(self)@, key@) ==> options.overwrite)
                    &&& has_blob(final(self)@, key@)
                    &&& blob_data(final(self)@, key@) == data@
                    &&& blob_etag(final(self)@, key@) == md5_hex_of(data@)
                    &&& forall|k2: Seq<char>|
                        k2 != key@ ==> (has_blob(final(self)@, k2) == has_blob(old(self)@, k2) && (
                        has_blob(old(self)@, k2) ==> blob_data(final(self)@, k2) == blob_data(
                            old(self)@,
                            k2,
                        )))
                },
                Err(e) => {
                    &&& final(self)@ == old(self)@
                    &&& !options.overwrite
                    &&& has_blob(old(self)@, key@)
                    &&& e matches BlobStorageError::AlreadyExists(k) && k@ == key@
                },
            },
    {
        let ghost pre = self@;
        let slot = self.find_slot(key.as_str());
        if !options.overwrite {
            if let Some(_) = slot {
                proof {
                    assert(has_blob(pre, key@));
                }
                return Err(BlobStorageError::AlreadyExists(BlobKey::new(key.as_str())));
            }
        }
        let etag = md5_hex(&data);
        let last_modified = rfc3339_utc(now_unix_secs());
        let blob = StoredBlob { data, etag, last_modified };
        match slot {
            Some(i) => {
                proof {
                    lemma_blob_slot(pre, i as int);
                }
                let entry = BlobSlot { key: key.as_str().to_owned(), blob };
                self.slots.set(i, entry);
                proof {
                    let post = self@;
                    assert(post =~= pre.update(i as int, post[i as int]));
                    assert(blob_keys_distinct(post)) by {
                        assert(forall|x: int| 0 <= x < post.len() ==> (#[trigger] post[x]).key@
                            == pre[x].key@);
                    }
                    lemma_blob_slot(post, i as int);
                    assert forall|k2: Seq<char>| k2 != key@ implies (has_blob(post, k2) == has_blob(
                        pre,
                        k2,
                    ) && (has_blob(pre, k2) ==> blob_data(post, k2) == blob_data(pre, k2))) by {
                        assert(forall|x: int| 0 <= x < post.len() ==> (#[trigger] post[x]).key@
                            == pre[x].key@);
                        if has_blob(pre, k2) {
                            let s = blob_slot(pre, k2);
                            assert(0 <= s < pre.len() && pre[s].key@ == k2);
                            assert(s != i as int);
                            assert(post[s] == pre[s]);
                            lemma_blob_slot(post, s);
                            lemma_blob_slot(pre, s);
                        } else {
                            if has_blob(post, k2) {
                                let s = blob_slot(post, k2);
                                assert(0 <= s < post.len() && post[s].key@ == k2);
                                assert(pre[s].key@ == k2);
                                assert(false);
                            }
                        }
                    }
                }
                Ok(())
            },
            None => {
                let entry = BlobSlot { key: key.as_str().to_owned(), blob };
                self.slots.push(entry);
                proof {
                    let post = self@;
                    let last = post.len() - 1;
                    assert(post[last].key@ == key@);
                    assert(blob_keys_distinct(post)) by {
                        assert forall|a: int, b: int|
                            0 <= a < b < post.len() implies (#[trigger] post[a]).key@ != (
                        #[trigger] post[b]).key@ by {
                            if b == last {
                                assert(pre[a].key@ != key@);
                            }
                        }
                    }
                    lemma_blob_slot(post, last);
                    assert forall|k2: Seq<char>| k2 != key@ implies (has_blob(post, k2) == has_blob(
                        pre,
                        k2,
                    ) && (has_blob(pre, k2) ==> blob_data(post, k2) == blob_data(pre, k2))) by {
                        assert(forall|x: int| 0 <= x < last ==> post[x] == pre[x]);
                        if has_blob(pre, k2) {
                            let s = blob_slot(pre, k2);
                            assert(0 <= s < pre.len() && pre[s].key@ == k2);
                            lemma_blob_slot(post, s);
                            lemma_blob_slot(pre, s);
                        } else {
                            if has_blob(post, k2) {
                                let s = blob_slot(post, k2);
                                assert(0 <= s < post.len() && post[s].key@ == k2);
                                assert(s != last);
                                assert(pre[s].key@ == k2);
                                assert(false);
                            }
                        }
                    }
                }
                Ok(())
            },
        }
    }

    /// Read the bytes stored under `key`.
    pub fn get(&self, key: &BlobKey) -> (r: Result<Vec<u8>, BlobStorageError>)
        requires
            self.inv(),
        ensures
            match r {
                Ok(d) => has_blob(self@, key@) && d@ == blob_data(self@, key@),
                Err(e) => !has_blob(self@, key@) && (e matches BlobStorageError::NotFound(k) && k@
                    == key@),
            },
    {
        match self.find_slot(key.as_str()) {
            Some(i) => {
                proof {
                    lemma_blob_slot(self@, i as int);
                }
                let src = &self.slots[i].blob.data;
                let mut out: Vec<u8> = Vec::new();
                let mut j: usize = 0;
                while j < src.len()
                    invariant
                        0 <= j <= src@.len(),
                        out@ =~= src@.subrange(0, j as int),
                    decreases src@.len() - j,
                {
                    out.push(src[j]);
                    proof {
                        assert(out@ =~= src@.subrange(0, j as int + 1));
                    }
                    j = j + 1;
                }
                proof {
                    assert(src@.subrange(0, src@.len() as int) =~= src@);
                }
                Ok(out)
            },
            None => Err(BlobStorageError::NotFound(BlobKey::new(key.as_str()))),
        }
    }

    /// Read a blob's metadata without its content: the byte count, the
    /// digest, and the upload timestamp.
    pub fn head(&self, key: &BlobKey) -> (r: Option<BlobMetadata>)
        requires
            self.inv(),
        ensures
            match r {
                Some(meta) => {
                    &&& has_blob(self@, key@)
                    &&& meta.size == blob_data(self@, key@).len()
                    &&& meta.etag matches Some(e) && e@ == md5_hex_of(blob_data(self@, key@))
                    &&& meta.last_modified is Some
                },
                None => !has_blob(self@, key@),
            },
    {
        match self.find_slot(key.as_str()) {
            Some(i) => {
                proof {
                    lemma_blob_slot(self@, i as int);
                }
                let blob = &self.slots[i].blob;
                Some(
                    BlobMetadata {
                        size: blob.data.len() as u64,
                        etag: Some(blob.etag.clone()),
                        last_modified: Some(blob.last_modified.clone()),
                    },
                )
            },
            None => None,
        }
    }

    /// Delete the blob stored under `key`; a miss is an error and changes
    /// nothing.
    pub fn delete(&mut self, key: &BlobKey) -> (r: Result<(), BlobStorageError>)
        requires
            old(self).inv(),
        ensures
            final(self).inv(),
            match r {
                Ok(()) => {
                    &&& has_blob(old(self)@, key@)
                    &&& !has_blob(final(self)@, key@)
                    &&& forall|k2: Seq<char>|
                        k2 != key@ ==> (has_blob(final(self)@, k2) == has_blob(old(self)@, k2) && (
                        has_blob(old(self)@, k2) ==> blob_data(final(self)@, k2) == blob_data(
                            old(self)@,
                            k2,
                        )))
                },
                Err(e) => final(self)@ == old(self)@ && !has_blob(old(self)@, key@) && (e matches
                    BlobStorageError::NotFound(k) && k@ == key@),
            },
    {
        let ghost pre = self@;
        match self.find_slot(key.as_str()) {
            Some(i) => {
                proof {
                    lemma_blob_slot(pre, i as int);
                }
                let _ = self.slots.remove(i);
                proof {
                    let post = self@;
                    let ii = i as int;
                    assert(forall|j: int| 0 <= j < post.len() ==> #[trigger] post[j] == (if j < ii {
                        pre[j]
                    } else {
                        pre[j + 1]
                    }));
                    assert(blob_keys_distinct(post)) by {
                        assert forall|a: int, b: int|
                            0 <= a < b < post.len() implies (#[trigger] post[a]).key@ != (
                        #[trigger] post[b]).key@ by {}
                    }
                    assert(!has_blob(post, key@)) by {
                        if has_blob(post, key@) {
                            let s = blob_slot(post, key@);
                            assert(0 <= s < post.len() && post[s].key@ == key@);
                            if s < ii {
                                assert(pre[s].key@ == pre[ii].key@);
                            } else {
                                assert(pre[s + 1].key@ == pre[ii].key@);
                            }
                            assert(false);
                        }
                    }
                    assert forall|k2: Seq<char>| k2 != key@ implies (has_blob(post, k2) == has_blob(
                        pre,
                        k2,
                    ) && (has_blob(pre, k2) ==> blob_data(post, k2) == blob_data(pre, k2))) by {
                        if has_blob(pre, k2) {
                            let s = blob_slot(pre, k2);
                            assert(0 <= s < pre.len() && pre[s].key@ == k2);
                            assert(s != ii);
                            let p = if s < ii {
                                s
                            } else {
                                s - 1
                            };
                            assert(post[p] == pre[s]);
                            lemma_blob_slot(post, p);
                            lemma_blob_slot(pre, s);
                        } else {
                            if has_blob(post, k2) {
                                let s = blob_slot(post, k2);
                                assert(0 <= s < post.len() && post[s].key@ == k2);
                                assert(has_blob(pre, k2)) by {
                                    if s < ii {
                                        assert(pre[s].key@ == k2);
                                    } else {
                                        assert(pre[s + 1].key@ == k2);
                                    }
                                }
                                assert(false);
                            }
                        }
                    }
                }
                Ok(())
            },
            None => Err(BlobStorageError::NotFound(BlobKey::new(key.as_str()))),
        }
    }

    /// The largest presigned-URL expiry the interface accepts, in seconds.
    pub open spec fn max_expiry_secs() -> u64 {
        0xffff_ffff
    }

    /// Produce a presigned URL for the blob under `key`: the scheme-prefixed
    /// key. The expiry must fit the supported range and the blob must exist;
    /// validation happens in that order.
    pub fn get_presigned_url(&self, key: &BlobKey, expiry_secs: u64) -> (r: Result<
        String,
        BlobStorageError,
    >)
        requires
            self.inv(),
        ensures
            match r {
                Ok(url) => expiry_secs <= Self::max_expiry_secs() && has_blob(self@, key@) && url@
                    == "memory://blob/"@ + key@,
                Err(e) => match e {
                    BlobStorageError::InvalidInput(_) => expiry_secs > Self::max_expiry_secs(),
                    BlobStorageError::NotFound(k) => k@ == key@ && expiry_secs
                        <= Self::max_expiry_secs() && !has_blob(self@, key@),
                    _ => false,
                },
            },
    {
        if expiry_secs > 0xffff_ffff {
            return Err(
                BlobStorageError::InvalidInput(
                    "expiry duration exceeds the maximum supported duration".to_owned(),
                ),
            );
        }
        match self.find_slot(key.as_str()) {
            Some(i) => {
                proof {
                    assert(has_blob(self@, key@));
                }
                Ok("memory://blob/".to_owned().concat(key.as_str()))
            },
            None => Err(BlobStorageError::NotFound(BlobKey::new(key.as_str()))),
        }
    }

    /// Every stored blob as a listing entry, in insertion order.
    pub fn entries(&self) -> (r: Vec<BlobEntry>)
        requires
            self.inv(),
        ensures
            r@.len() == self@.len(),
            forall|i: int|
                0 <= i < r@.len() ==> {
                    let e = #[trigger] r@[i];
                    &&& e.key@ == self@[i].key@
                    &&& e.size == self@[i].blob.data@.len()
                    &&& e.etag matches Some(t) && t@ == self@[i].blob.etag@
                },
    {
        let mut r: Vec<BlobEntry> = Vec::new();
        let mut i: usize = 0;
        while i < self.slots.len()
            invariant
                0 <= i <= self@.len(),
                r@.len() == i,
                forall|j: int|
                    0 <= j < i ==> {
                        let e = #[trigger] r@[j];
                        &&& e.key@ == self@[j].key@
                        &&& e.size == self@[j].blob.data@.len()
                        &&& e.etag matches Some(t) && t@ == self@[j].blob.etag@
                    },
            decreases self@.len() - i,
        {
            let slot = &self.slots[i];
            r.push(
                BlobEntry {
                    key: BlobKey::new(slot.key.as_str()),
                    size: slot.blob.data.len() as u64,
                    last_modified: Some(slot.blob.last_modified.clone()),
                    etag: Some(slot.blob.etag.clone()),
                },
            );
            i = i + 1;
        }
        r
    }
}

} // verus!
