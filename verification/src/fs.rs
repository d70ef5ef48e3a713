use vstd::prelude::*;

use crate::date::Date;
use crate::text::{str_eq, str_starts_with};

verus! {

/// An object that can be used to get and put blobs.
///
/// `blobs()` is the abstract content of the store: the mapping from blob
/// name to bytes. Every capability may fail with an I/O error; a missing
/// blob is never an error but the `None` case of `maybe_get`.
pub trait BlobStorageProvider: Sized {
    /// The blobs currently stored, by name.
    spec fn blobs(&self) -> Map<Seq<char>, Seq<u8>>;

    /// Whether the back-end accepts writes.
    spec fn spec_can_put(&self) -> bool;

    /// Returns the stored bytes, or `None` when the blob does not exist.
    fn maybe_get(&self, blob_name: &str) -> (r: Result<Option<Vec<u8>>, String>)
        ensures
            match r {
                Ok(Some(data)) => self.blobs().contains_key(blob_name@)
                    && data@ == self.blobs()[blob_name@],
                Ok(None) => !self.blobs().contains_key(blob_name@),
                Err(_) => true,
            },
    ;

    /// Idempotent upsert of a blob.
    fn put(&mut self, blob_name: &str, contents: &Vec<u8>) -> (r: Result<(), String>)
        ensures
            final(self).spec_can_put() == old(self).spec_can_put(),
            match r {
                Ok(_) => final(self).blobs() == old(self).blobs().insert(
                    blob_name@,
                    contents@,
                ),
                Err(_) => final(self).blobs() == old(self).blobs(),
            },
    ;

    /// Enumerates the names of the stored blobs that start with `prefix`.
    fn list(&self, prefix: &str) -> (r: Result<Vec<String>, String>)
        ensures
            r matches Ok(keys) ==> forall|i: int|
                0 <= i < keys@.len() ==> self.blobs().contains_key((#[trigger] keys@[i])@)
                    && prefix@.is_prefix_of(keys@[i]@),
            r matches Ok(keys) ==> forall|k: Seq<char>|
                self.blobs().contains_key(k) && prefix@.is_prefix_of(k)
                    ==> #[trigger] names_contain(keys@, k),
    ;

    /// Removes a blob.
    fn delete(&mut self, blob_name: &str) -> (r: Result<(), String>)
        ensures
            final(self).spec_can_put() == old(self).spec_can_put(),
            match r {
                Ok(_) => final(self).blobs() == old(self).blobs().remove(blob_name@),
                Err(_) => final(self).blobs() == old(self).blobs(),
            },
    ;

    fn can_put(&self) -> (r: bool)
        ensures
            r == self.spec_can_put(),
    ;
}

/// Some element of `keys` reads `k`.
pub open spec fn names_contain(keys: Seq<String>, k: Seq<char>) -> bool {
    exists|i: int| 0 <= i < keys.len() && (#[trigger] keys[i])@ == k
}

/// The mapping written by a list of `(name, bytes)` entries, later entries
/// shadowing earlier ones.
pub open spec fn entries_map(s: Seq<(String, Vec<u8>)>) -> Map<Seq<char>, Seq<u8>>
    decreases s.len(),
{
    if s.len() == 0 {
        Map::empty()
    } else {
        entries_map(s.drop_last()).insert(s.last().0@, s.last().1@)
    }
}

/// When `s[i]` is the last entry named `k`, the entries map at `k` holds its bytes.
proof fn lemma_entries_map_found(s: Seq<(String, Vec<u8>)>, k: Seq<char>, i: int)
    requires
        0 <= i < s.len(),
        s[i].0@ == k,
        forall|j: int| i < j < s.len() ==> (#[trigger] s[j]).0@ != k,
    ensures
        entries_map(s).contains_key(k),
        entries_map(s)[k] == s[i].1@,
    decreases s.len(),
{
    if i == s.len() - 1 {
    } else {
        assert(forall|j: int| i < j < s.drop_last().len() ==> (#[trigger] s.drop_last()[j]).0@ != k);
        lemma_entries_map_found(s.drop_last(), k, i);
    }
}

/// When no entry is named `k`, the entries map has no key `k`.
proof fn lemma_entries_map_absent(s: Seq<(String, Vec<u8>)>, k: Seq<char>)
    requires
        forall|j: int| 0 <= j < s.len() ==> (#[trigger] s[j]).0@ != k,
    ensures
        !entries_map(s).contains_key(k),
    decreases s.len(),
{
    if s.len() > 0 {
        lemma_entries_map_absent(s.drop_last(), k);
    }
}

/// The entries map has key `k` exactly when some entry is named `k`.
proof fn lemma_entries_map_contains(s: Seq<(String, Vec<u8>)>, k: Seq<char>)
    ensures
        entries_map(s).contains_key(k) <==> exists|j: int|
            0 <= j < s.len() && (#[trigger] s[j]).0@ == k,
    decreases s.len(),
{
    if s.len() > 0 {
        lemma_entries_map_contains(s.drop_last(), k);
        if s.last().0@ == k {
            assert(s[s.len() - 1].0@ == k);
        } else if entries_map(s.drop_last()).contains_key(k) {
            let j = choose|j: int| 0 <= j < s.drop_last().len() && (#[trigger] s.drop_last()[j]).0@
                == k;
            assert(s[j].0@ == k);
        } else {
            assert forall|j: int| 0 <= j < s.len() implies (#[trigger] s[j]).0@ != k by {
                if j < s.len() - 1 {
                    assert(s.drop_last()[j].0@ != k);
                }
            }
        }
    }
}

/// An in-memory [`BlobStorageProvider`]: the store's model made executable,
/// for tests and for running the pipeline against local state. A store can
/// be read-only, as an anonymous remote back-end is; a write then fails
/// and changes nothing.
pub struct MemoryBlobStorage {
    entries: Vec<(String, Vec<u8>)>,
    writable: bool,
}

impl MemoryBlobStorage {
    pub fn new() -> (r: MemoryBlobStorage)
        ensures
            r.blobs() == Map::<Seq<char>, Seq<u8>>::empty(),
            r.spec_can_put(),
    {
        MemoryBlobStorage { entries: Vec::new(), writable: true }
    }

    /// An empty store that refuses writes.
    pub fn read_only() -> (r: MemoryBlobStorage)
        ensures
            r.blobs() == Map::<Seq<char>, Seq<u8>>::empty(),
            !r.spec_can_put(),
    {
        MemoryBlobStorage { entries: Vec::new(), writable: false }
    }

    /// A writable copy of this store's blobs, to seed a read-only store.
    pub fn into_read_only(self) -> (r: MemoryBlobStorage)
        ensures
            r.blobs() == self.blobs(),
            !r.spec_can_put(),
    {
        MemoryBlobStorage { entries: self.entries, writable: false }
    }

    #[verifier::spinoff_prover]
    #[verifier::rlimit(80)]
    fn list_keys(&self, prefix: &str) -> (keys: Vec<String>)
        ensures
            forall|i: int|
                0 <= i < keys@.len() ==> self.blobs().contains_key((#[trigger] keys@[i])@)
                    && prefix@.is_prefix_of(keys@[i]@),
            forall|k: Seq<char>|
                self.blobs().contains_key(k) && prefix@.is_prefix_of(k)
                    ==> #[trigger] names_contain(keys@, k),
    {
        let n = self.entries.len();
        let mut keys: Vec<String> = Vec::new();
        let mut i: usize = 0;
        while i < n
            invariant
                n == self.entries@.len(),
                i <= n,
                forall|idx: int|
                    0 <= idx < keys@.len() ==> (exists|j: int|
                        0 <= j < n && (#[trigger] self.entries@[j]).0@ == keys@[idx]@)
                        && prefix@.is_prefix_of((#[trigger] keys@[idx])@),
                forall|j: int|
                    0 <= j < i && prefix@.is_prefix_of((#[trigger] self.entries@[j]).0@)
                        ==> exists|idx: int|
                        0 <= idx < keys@.len() && (#[trigger] keys@[idx])@ == self.entries@[j].0@,
            decreases n - i,
        {
            let ghost keys0 = keys@;
            if str_starts_with(self.entries[i].0.as_str(), prefix) {
                keys.push(self.entries[i].0.clone());
                proof {
                    assert(keys@.last()@ == self.entries@[i as int].0@);
                    assert(keys@.drop_last() =~= keys0);
                }
            }
            proof {
                assert forall|j: int|
                    0 <= j < i + 1 && prefix@.is_prefix_of(
                        (#[trigger] self.entries@[j]).0@,
                    ) implies exists|idx: int|
                    0 <= idx < keys@.len() && (#[trigger] keys@[idx])@ == self.entries@[j].0@ by {
                    if j == i {
                        assert(keys@[keys@.len() - 1]@ == self.entries@[i as int].0@);
                    } else {
                        let idx = choose|idx: int|
                            0 <= idx < keys0.len() && (#[trigger] keys0[idx])@
                                == self.entries@[j].0@;
                        assert(keys@[idx]@ == self.entries@[j].0@);
                    }
                }
            }
            i = i + 1;
        }
        proof {
            assert forall|idx: int|
                0 <= idx < keys@.len() implies self.blobs().contains_key(
                (#[trigger] keys@[idx])@,
            ) && prefix@.is_prefix_of(keys@[idx]@) by {
                lemma_entries_map_contains(self.entries@, keys@[idx]@);
            }
            assert forall|k: Seq<char>|
                self.blobs().contains_key(k) && prefix@.is_prefix_of(k) implies exists|idx: int|
                0 <= idx < keys@.len() && (#[trigger] keys@[idx])@ == k by {
                lemma_entries_map_contains(self.entries@, k);
                let j = choose|j: int| 0 <= j < n && (#[trigger] self.entries@[j]).0@ == k;
                assert(prefix@.is_prefix_of(self.entries@[j].0@));
            }
        }
        keys
    }
}

impl BlobStorageProvider for MemoryBlobStorage {
    closed spec fn blobs(&self) -> Map<Seq<char>, Seq<u8>> {
        entries_map(self.entries@)
    }

    closed spec fn spec_can_put(&self) -> bool {
        self.writable
    }

    fn maybe_get(&self, blob_name: &str) -> (r: Result<Option<Vec<u8>>, String>)
        ensures
            r is Ok,
    {
        let n = self.entries.len();
        let mut i: usize = n;
        while i > 0
            invariant
                n == self.entries@.len(),
                i <= n,
                forall|j: int| i <= j < n ==> (#[trigger] self.entries@[j]).0@ != blob_name@,
            decreases i,
        {
            i = i - 1;
            if str_eq(self.entries[i].0.as_str(), blob_name) {
                proof {
                    lemma_entries_map_found(self.entries@, blob_name@, i as int);
                }
                let mut out: Vec<u8> = Vec::new();
                out.extend_from_slice(self.entries[i].1.as_slice());
                proof {
                    assert(out@ =~= self.entries@[i as int].1@);
                }
                return Ok(Some(out));
            }
        }
        proof {
            lemma_entries_map_absent(self.entries@, blob_name@);
        }
        Ok(None)
    }

    fn put(&mut self, blob_name: &str, contents: &Vec<u8>) -> (r: Result<(), String>)
        ensures
            r is Ok <==> old(self).spec_can_put(),
    {
        if !self.writable {
            return Err("the store is read-only".to_owned());
        }
        let mut owned: Vec<u8> = Vec::new();
        owned.extend_from_slice(contents.as_slice());
        proof {
            assert(owned@ =~= contents@);
        }
        self.entries.push((blob_name.to_owned(), owned));
        proof {
            assert(self.entries@.drop_last() =~= old(self).entries@);
            assert(self.entries@.last().0@ == blob_name@);
            assert(self.entries@.last().1@ == contents@);
            assert(self.blobs() =~= old(self).blobs().insert(blob_name@, contents@));
        }
        Ok(())
    }

    fn list(&self, prefix: &str) -> (r: Result<Vec<String>, String>)
        ensures
            r is Ok,
    {
        Ok(self.list_keys(prefix))
    }

    fn delete(&mut self, blob_name: &str) -> (r: Result<(), String>)
        ensures
            r is Ok,
    {
        let ghost s = self.entries@;
        let n = self.entries.len();
        let mut kept: Vec<(String, Vec<u8>)> = Vec::new();
        let mut i: usize = 0;
        proof {
            assert(s.take(0) =~= Seq::<(String, Vec<u8>)>::empty());
            assert(entries_map(kept@) =~= entries_map(s.take(0)).remove(blob_name@));
        }
        while i < n
            invariant
                n == self.entries@.len(),
                s == self.entries@,
                i <= n,
                entries_map(kept@) =~= entries_map(s.take(i as int)).remove(blob_name@),
            decreases n - i,
        {
            proof {
                assert(s.take(i as int + 1).drop_last() =~= s.take(i as int));
                assert(s.take(i as int + 1).last() == s[i as int]);
            }
            if !str_eq(self.entries[i].0.as_str(), blob_name) {
                let ghost kept0 = kept@;
                let key = self.entries[i].0.clone();
                let mut bytes: Vec<u8> = Vec::new();
                bytes.extend_from_slice(self.entries[i].1.as_slice());
                kept.push((key, bytes));
                proof {
                    assert(kept@.drop_last() =~= kept0);
                    assert(kept@.last().0@ == s[i as int].0@);
                    assert(kept@.last().1@ =~= s[i as int].1@);
                    assert(entries_map(kept@) == entries_map(kept0).insert(
                        kept@.last().0@,
                        kept@.last().1@,
                    ));
                    assert(entries_map(kept@) =~= entries_map(s.take(i as int + 1)).remove(
                        blob_name@,
                    ));
                }
            } else {
                proof {
                    assert(entries_map(s.take(i as int + 1)) == entries_map(s.take(
                        i as int,
                    )).insert(blob_name@, s[i as int].1@));
                    assert(entries_map(kept@) =~= entries_map(s.take(i as int + 1)).remove(
                        blob_name@,
                    ));
                }
            }
            i = i + 1;
        }
        proof {
            assert(s.take(n as int) =~= s);
        }
        self.entries = kept;
        Ok(())
    }

    fn can_put(&self) -> (r: bool) {
        self.writable
    }
}

/// When and what the content cache reads and writes.
#[derive(Debug, Clone, Copy, PartialEq, Eq, Structural)]
pub enum CacheAction {
    ReadFetchWrite,
    ReadFetch,
    FetchWrite,
}

/// The action consults the store before fetching.
pub open spec fn action_reads(a: CacheAction) -> bool {
    a != CacheAction::FetchWrite
}

/// The action stores what was fetched, where the back-end accepts writes.
pub open spec fn action_writes(a: CacheAction) -> bool {
    a != CacheAction::ReadFetch
}

/// The caching rule for data derived from `date`: data of today or of a
/// future date is volatile and is not written back.
pub open spec fn spec_date_action(date: Date, today: Date) -> CacheAction {
    if date.ord() >= today.ord() {
        CacheAction::ReadFetch
    } else {
        CacheAction::ReadFetchWrite
    }
}

impl CacheAction {
    /// The caching rule for data derived from `date`: data of today or of a
    /// future date is volatile and is not written back.
    pub fn from_date(date: &Date, today: &Date) -> (r: CacheAction)
        requires
            date.in_bounds() || date.valid(),
            today.in_bounds() || today.valid(),
        ensures
            r == spec_date_action(*date, *today),
    {
        if today.le(date) {
            CacheAction::ReadFetch
        } else {
            CacheAction::ReadFetchWrite
        }
    }
}

/// What holds of the store and the returned bytes after a successful
/// [`cached`] call: either a cache hit served from the store, or a fetch,
/// written back exactly when the action writes and the back-end accepts it.
pub open spec fn cached_ok<F: FnOnce() -> Result<Vec<u8>, String>>(
    pre: Map<Seq<char>, Seq<u8>>,
    post: Map<Seq<char>, Seq<u8>>,
    can_put: bool,
    blob_name: Seq<char>,
    fetch: F,
    action: CacheAction,
    data: Vec<u8>,
) -> bool {
    ||| (action_reads(action) && pre.contains_key(blob_name) && data@ == pre[blob_name] && post
        == pre)
    ||| (call_ensures(fetch, (), Ok(data)) && (if action_writes(action) && can_put {
        post == pre.insert(blob_name, data@)
    } else {
        post == pre
    }))
}

/// Writes the result of `fetch` into `provider`, unless the action or the
/// back-end forbids writes. Returns the result of `fetch`.
pub fn miss<T: BlobStorageProvider, F: FnOnce() -> Result<Vec<u8>, String>>(
    blob_name: &str,
    fetch: F,
    provider: &mut T,
    action: CacheAction,
) -> (r: Result<Vec<u8>, String>)
    requires
        call_requires(fetch, ()),
    ensures
        final(provider).spec_can_put() == old(provider).spec_can_put(),
        match r {
            Ok(data) => {
                &&& call_ensures(fetch, (), Ok(data))
                &&& if action_writes(action) && old(provider).spec_can_put() {
                    final(provider).blobs() == old(provider).blobs().insert(blob_name@, data@)
                } else {
                    final(provider).blobs() == old(provider).blobs()
                }
            },
            Err(_) => final(provider).blobs() == old(provider).blobs(),
        },
{
    let contents = match fetch() {
        Ok(c) => c,
        Err(e) => {
            return Err(e);
        },
    };
    if matches!(action, CacheAction::ReadFetch) || !provider.can_put() {
        return Ok(contents);
    }
    match provider.put(blob_name, &contents) {
        Ok(_) => Ok(contents),
        Err(e) => Err(e),
    }
}

/// Tries to retrieve `blob_name` from `provider`; on a miss, calls `fetch`
/// and writes the result into `provider` as the action allows.
///
/// For a given name the call is idempotent but not pure: the content at a
/// written name is the bytes of the first successful fetch, and later calls
/// return that content unchanged.
pub fn cached<T: BlobStorageProvider, F: FnOnce() -> Result<Vec<u8>, String>>(
    blob_name: &str,
    fetch: F,
    provider: &mut T,
    action: CacheAction,
) -> (r: Result<Vec<u8>, String>)
    requires
        call_requires(fetch, ()),
    ensures
        final(provider).spec_can_put() == old(provider).spec_can_put(),
        match r {
            Ok(data) => cached_ok(
                old(provider).blobs(),
                final(provider).blobs(),
                old(provider).spec_can_put(),
                blob_name@,
                fetch,
                action,
                data,
            ),
            Err(_) => final(provider).blobs() == old(provider).blobs(),
        },
        action_reads(action) && old(provider).blobs().contains_key(blob_name@)
            ==> final(provider).blobs() == old(provider).blobs() && (r matches Ok(data) ==> data@
            == old(provider).blobs()[blob_name@]),
{
    if matches!(action, CacheAction::FetchWrite) {
        miss(blob_name, fetch, provider, action)
    } else {
        match provider.maybe_get(blob_name) {
            Ok(Some(data)) => Ok(data),
            Ok(None) => miss(blob_name, fetch, provider, action),
            Err(e) => Err(e),
        }
    }
}

/// The dual-tier cache rule: read from the remote store; on a miss, fall
/// back to the local store when the remote one is read-only, else fetch
/// through the remote store; when the remote store refuses the write, the
/// bytes are kept on the local store instead.
pub fn cached_call<R: BlobStorageProvider, L: BlobStorageProvider, F: FnOnce() -> Result<
    Vec<u8>,
    String,
>>(
    blob_name: &str,
    fetch: F,
    client: &mut R,
    local: &mut L,
    action: CacheAction,
) -> (r: Result<Vec<u8>, String>)
    requires
        call_requires(fetch, ()),
    ensures
        final(client).spec_can_put() == old(client).spec_can_put(),
        final(local).spec_can_put() == old(local).spec_can_put(),
        match r {
            Ok(data) => {
                ||| (old(client).blobs().contains_key(blob_name@)
                    && data@ == old(client).blobs()[blob_name@]
                    && final(client).blobs() == old(client).blobs()
                    && final(local).blobs() == old(local).blobs())
                ||| (!old(client).spec_can_put() && final(client).blobs() == old(client).blobs()
                    && cached_ok(
                    old(local).blobs(),
                    final(local).blobs(),
                    old(local).spec_can_put(),
                    blob_name@,
                    fetch,
                    action,
                    data,
                ))
                ||| (old(client).spec_can_put() && call_ensures(fetch, (), Ok(data)) && (
                if action_writes(action) {
                    ||| (final(client).blobs() == old(client).blobs().insert(blob_name@, data@)
                        && final(local).blobs() == old(local).blobs())
                    ||| (final(client).blobs() == old(client).blobs() && (if old(
                        local,
                    ).spec_can_put() {
                        final(local).blobs() == old(local).blobs().insert(blob_name@, data@)
                    } else {
                        final(local).blobs() == old(local).blobs()
                    }))
                } else {
                    final(client).blobs() == old(client).blobs() && final(local).blobs() == old(
                        local,
                    ).blobs()
                }))
            },
            Err(_) => final(client).blobs() == old(client).blobs()
                && final(local).blobs() == old(local).blobs(),
        },
        old(client).blobs().contains_key(blob_name@)
            ==> final(client).blobs() == old(client).blobs()
            && final(local).blobs() == old(local).blobs(),
{
    match client.maybe_get(blob_name) {
        Ok(Some(data)) => Ok(data),
        Ok(None) => {
            if !client.can_put() {
                cached(blob_name, fetch, local, action)
            } else {
                let contents = match fetch() {
                    Ok(c) => c,
                    Err(e) => {
                        return Err(e);
                    },
                };
                if matches!(action, CacheAction::ReadFetch) {
                    return Ok(contents);
                }
                match client.put(blob_name, &contents) {
                    Ok(_) => Ok(contents),
                    Err(_) => {
                        // the remote store refused the write: keep the
                        // bytes on the local tier instead
                        if local.can_put() {
                            match local.put(blob_name, &contents) {
                                Ok(_) => Ok(contents),
                                Err(e) => Err(e),
                            }
                        } else {
                            Ok(contents)
                        }
                    },
                }
            }
        },
        Err(e) => Err(e),
    }
}

} // verus!
