//! The digest of a directory listing: a change signal that depends on the
//! names and modification times of the entries, not on their contents and
//! not on the order in which they are listed.

use crate::text::{
    lemma_text_lt_asymmetric, lemma_text_lt_irreflexive, lemma_text_lt_total,
    lemma_text_lt_transitive, text_eq, text_less, text_lt,
};
use fnv::FnvHasher;
use std::hash::Hasher;
use vstd::bytes::{spec_u64_to_le_bytes, u64_to_le_bytes};
use vstd::prelude::*;
use vstd::relations::{sorted_by, total_ordering};
use vstd::seq_lib::{lemma_sorted_unique, to_multiset_build, to_multiset_remove};
use vstd::string::*;
use vstd::utf8::encode_utf8;

verus! {

/// The value at which the hash starts.
pub const FNV_OFFSET: u64 = 0xcbf29ce484222325;

/// The factor by which the hash is multiplied after each byte.
pub const FNV_PRIME: u64 = 0x100000001b3;

/// The hash after one more byte: exclusive or, then multiplication modulo 2^64.
pub open spec fn fnv_step(hash: u64, byte: u8) -> u64 {
    (((hash ^ (byte as u64)) * FNV_PRIME) % 0x1_0000_0000_0000_0000) as u64
}

/// The hash after a sequence of bytes, taken in from the first to the last.
pub open spec fn fnv1a(hash: u64, bytes: Seq<u8>) -> u64
    decreases bytes.len(),
{
    if bytes.len() == 0 {
        hash
    } else {
        fnv1a(fnv_step(hash, bytes[0]), bytes.drop_first())
    }
}

/// The order of directory entries: by modification time, then by path.
pub open spec fn entry_le(a: (u64, Seq<char>), b: (u64, Seq<char>)) -> bool {
    a.0 < b.0 || (a.0 == b.0 && !text_lt(b.1, a.1))
}

/// The bytes that stand for one entry: its modification time, little
/// endian, then its path in UTF-8.
pub open spec fn entry_bytes(entry: (u64, Seq<char>)) -> Seq<u8> {
    spec_u64_to_le_bytes(entry.0) + encode_utf8(entry.1)
}

/// The bytes that stand for a sequence of entries: those of each, in order.
pub open spec fn listing_bytes(entries: Seq<(u64, Seq<char>)>) -> Seq<u8>
    decreases entries.len(),
{
    if entries.len() == 0 {
        Seq::<u8>::empty()
    } else {
        listing_bytes(entries.drop_last()) + entry_bytes(entries.last())
    }
}

/// The entries of a listing in their order.
pub open spec fn ordered(entries: Seq<(u64, Seq<char>)>) -> Seq<(u64, Seq<char>)> {
    entries.sort_by(|a: (u64, Seq<char>), b: (u64, Seq<char>)| entry_le(a, b))
}

/// The digest of a directory listing: the hash of the bytes of its entries,
/// taken in their order.
pub open spec fn digest_of(entries: Seq<(u64, Seq<char>)>) -> u64 {
    fnv1a(FNV_OFFSET, listing_bytes(ordered(entries)))
}

/// The order of entries is a total order.
pub proof fn lemma_entry_le_total_ordering()
    ensures
        total_ordering(|a: (u64, Seq<char>), b: (u64, Seq<char>)| entry_le(a, b)),
{
    let leq = |a: (u64, Seq<char>), b: (u64, Seq<char>)| entry_le(a, b);
    assert forall|x: (u64, Seq<char>)| #[trigger] leq(x, x) by {
        lemma_text_lt_irreflexive(x.1);
    }
    assert forall|x: (u64, Seq<char>), y: (u64, Seq<char>)| #[trigger]
        leq(x, y) && #[trigger] leq(y, x) implies x == y by {
        lemma_text_lt_total(x.1, y.1);
    }
    assert forall|x: (u64, Seq<char>), y: (u64, Seq<char>), z: (u64, Seq<char>)| #[trigger]
        leq(x, y) && #[trigger] leq(y, z) implies leq(x, z) by {
        if x.0 == y.0 && y.0 == z.0 && text_lt(z.1, x.1) {
            lemma_text_lt_total(x.1, y.1);
            if text_lt(x.1, y.1) {
                lemma_text_lt_transitive(z.1, x.1, y.1);
            }
        }
    }
    assert forall|x: (u64, Seq<char>), y: (u64, Seq<char>)| #[trigger]
        leq(x, y) || #[trigger] leq(y, x) by {
        if text_lt(y.1, x.1) {
            lemma_text_lt_asymmetric(y.1, x.1);
        }
    }
}

/// The digest does not depend on the order in which the entries are listed:
/// two listings with the same entries, each as often in one as in the other,
/// have the same digest.
pub proof fn lemma_digest_order_independent(
    first: Seq<(u64, Seq<char>)>,
    second: Seq<(u64, Seq<char>)>,
)
    requires
        first.to_multiset() == second.to_multiset(),
    ensures
        digest_of(first) == digest_of(second),
{
    let leq = |a: (u64, Seq<char>), b: (u64, Seq<char>)| entry_le(a, b);
    lemma_entry_le_total_ordering();
    first.lemma_sort_by_ensures(leq);
    second.lemma_sort_by_ensures(leq);
    lemma_sorted_unique(first.sort_by(leq), second.sort_by(leq), leq);
}

/// The digest of a listing that is in order is the hash of the bytes of its
/// entries as they stand.
pub proof fn lemma_digest_of_ordered(entries: Seq<(u64, Seq<char>)>)
    requires
        sorted_by(entries, |a: (u64, Seq<char>), b: (u64, Seq<char>)| entry_le(a, b)),
    ensures
        digest_of(entries) == fnv1a(FNV_OFFSET, listing_bytes(entries)),
{
    let leq = |a: (u64, Seq<char>), b: (u64, Seq<char>)| entry_le(a, b);
    lemma_entry_le_total_ordering();
    entries.lemma_sort_by_ensures(leq);
    lemma_sorted_unique(entries, entries.sort_by(leq), leq);
}

/// An entry of a directory as it is on disk: where it is, when it was last
/// modified, and what it holds.
pub struct DirectoryEntry {
    pub mtime: u64,
    pub path: Seq<char>,
    pub content: Seq<u8>,
}

/// The listing of a directory: the modification time and the path of each entry.
pub open spec fn listing_of(entries: Seq<DirectoryEntry>) -> Seq<(u64, Seq<char>)> {
    Seq::new(entries.len(), |i: int| (entries[i].mtime, entries[i].path))
}

/// The digest does not see what the entries hold: two states of a directory
/// that differ only in contents, every path and modification time being the
/// same, have the same digest. A change of contents that does not touch the
/// modification time goes unnoticed.
pub proof fn lemma_digest_ignores_content(before: Seq<DirectoryEntry>, after: Seq<DirectoryEntry>)
    requires
        before.len() == after.len(),
        forall|i: int|
            0 <= i < before.len() ==> before[i].path == after[i].path && before[i].mtime
                == after[i].mtime,
    ensures
        digest_of(listing_of(before)) == digest_of(listing_of(after)),
{
    assert(listing_of(before) =~= listing_of(after));
}

/// `fnv::FnvHasher`: a hasher made by `default`, fed `data` by one `write`,
/// and read by `finish`. It starts at the offset basis and, for each byte in
/// order, takes the exclusive or with the byte and multiplies by the prime,
/// wrapping.
#[verifier::external_body]
fn fnv_hash(data: &[u8]) -> (hash: u64)
    ensures
        hash == fnv1a(FNV_OFFSET, data@),
{
    let mut hasher = FnvHasher::default();
    hasher.write(data);
    hasher.finish()
}

/// Whether `a` stands at or before `b` in the order of entries.
fn entry_at_or_before(a: &(u64, String), b: &(u64, String)) -> (r: bool)
    ensures
        r == entry_le(a.deep_view(), b.deep_view()),
{
    a.0 < b.0 || (a.0 == b.0 && !text_less(b.1.as_str(), a.1.as_str()))
}

/// Putting an entry into a sequence adds it once to what the sequence holds.
proof fn lemma_insert_to_multiset(s: Seq<(u64, Seq<char>)>, i: int, x: (u64, Seq<char>))
    requires
        0 <= i <= s.len(),
    ensures
        s.insert(i, x).to_multiset() == s.to_multiset().insert(x),
{
    let t = s.insert(i, x);
    assert(t.remove(i) =~= s);
    to_multiset_remove(t, i);
    assert(t[i] == x);
    assert(t.to_multiset().count(x) > 0) by {
        t.to_multiset_ensures();
        assert(t.contains(x));
    }
    assert(t.to_multiset() =~= s.to_multiset().insert(x));
}

/// The entries in their order.
fn sort_entries(entries: Vec<(u64, String)>) -> (sorted: Vec<(u64, String)>)
    ensures
        sorted.deep_view() == ordered(entries.deep_view()),
{
    let ghost leq = |a: (u64, Seq<char>), b: (u64, Seq<char>)| entry_le(a, b);
    let ghost all = entries.deep_view();
    let mut sorted: Vec<(u64, String)> = Vec::new();
    proof {
        lemma_entry_le_total_ordering();
        assert(all.take(0) =~= Seq::<(u64, Seq<char>)>::empty());
        assert(sorted.deep_view() =~= Seq::<(u64, Seq<char>)>::empty());
    }
    for entry in it: entries
        invariant
            it.seq() == entries@,
            all == entries.deep_view(),
            leq == |a: (u64, Seq<char>), b: (u64, Seq<char>)| entry_le(a, b),
            total_ordering(leq),
            sorted_by(sorted.deep_view(), leq),
            sorted.deep_view().to_multiset() == all.take(it.index() as int).to_multiset(),
    {
        let ghost before = sorted.deep_view();
        let ghost value = entry.deep_view();
        let n = sorted.len();
        let mut p: usize = 0;
        while p < n && entry_at_or_before(&sorted[p], &entry)
            invariant
                n == sorted@.len(),
                p <= n,
                before == sorted.deep_view(),
                value == entry.deep_view(),
                forall|j: int| 0 <= j < p ==> entry_le(before[j], value),
            decreases n - p,
        {
            p += 1;
        }
        sorted.insert(p, entry);
        proof {
            let after = sorted.deep_view();
            assert(after =~= before.insert(p as int, value));
            assert forall|i: int, j: int| 0 <= i < j < after.len() implies #[trigger] leq(
                after[i],
                after[j],
            ) by {
                if j < p {
                    assert(leq(before[i], before[j]));
                } else if j == p {
                    assert(entry_le(before[i], value));
                } else if i < p {
                    assert(leq(before[i], before[j - 1]));
                } else if i == p {
                    assert(!entry_le(before[p as int], value));
                    assert(leq(before[p as int], value) || leq(value, before[p as int]));
                    if j - 1 > p {
                        assert(leq(before[p as int], before[j - 1]));
                        assert(leq(value, before[p as int]) && leq(before[p as int], before[j - 1])
                            ==> leq(value, before[j - 1]));
                    }
                } else {
                    assert(leq(before[i - 1], before[j - 1]));
                }
            }
            lemma_insert_to_multiset(before, p as int, value);
            let upto = all.take(it.index() + 1);
            assert(upto =~= all.take(it.index() as int).push(value));
            to_multiset_build(all.take(it.index() as int), value);
        }
    }
    proof {
        assert(all.take(all.len() as int) =~= all);
        all.lemma_sort_by_ensures(leq);
        lemma_sorted_unique(sorted.deep_view(), all.sort_by(leq), leq);
    }
    sorted
}

/// The digest of a directory listing, given as the modification time in
/// seconds and the relative path of each entry, in any order.
///
/// The contents of the entries are no part of the listing: a change of
/// contents that leaves the modification time as it was leaves the digest
/// as it was.
pub fn compute_cache_key(entries: Vec<(u64, String)>) -> (key: u64)
    ensures
        key == digest_of(entries.deep_view()),
{
    let sorted = sort_entries(entries);
    let ghost all = sorted.deep_view();
    let mut data: Vec<u8> = Vec::new();
    let n = sorted.len();
    let mut i: usize = 0;
    assert(all.take(0) =~= Seq::<(u64, Seq<char>)>::empty());
    while i < n
        invariant
            n == sorted@.len(),
            i <= n,
            all == sorted.deep_view(),
            data@ == listing_bytes(all.take(i as int)),
        decreases n - i,
    {
        proof {
            let upto = all.take(i + 1);
            assert(upto.drop_last() =~= all.take(i as int));
            assert(upto.last() == all[i as int]);
        }
        let mut mtime = u64_to_le_bytes(sorted[i].0);
        let mut path = sorted[i].1.as_str().as_bytes_vec();
        data.append(&mut mtime);
        data.append(&mut path);
        i += 1;
    }
    assert(all.take(n as int) =~= all);
    fnv_hash(data.as_slice())
}

/// The mapping from keys to values that stored values stand for. Of two
/// values under one key the earlier one counts.
spec fn storage_map<T>(storage: Seq<(String, T)>) -> Map<Seq<char>, T>
    decreases storage.len(),
{
    if storage.len() == 0 {
        Map::empty()
    } else {
        let front = storage_map(storage.drop_last());
        if front.dom().contains(storage.last().0@) {
            front
        } else {
            front.insert(storage.last().0@, storage.last().1)
        }
    }
}

/// A key under which nothing is stored is not in the mapping.
proof fn lemma_storage_map_absent<T>(storage: Seq<(String, T)>, key: Seq<char>)
    requires
        forall|j: int| 0 <= j < storage.len() ==> (#[trigger] storage[j]).0@ != key,
    ensures
        !storage_map(storage).dom().contains(key),
    decreases storage.len(),
{
    if storage.len() > 0 {
        let front = storage.drop_last();
        assert forall|j: int| 0 <= j < front.len() implies (#[trigger] front[j]).0@ != key by {
            assert(front[j] == storage[j]);
        }
        lemma_storage_map_absent(front, key);
        assert(storage.last() == storage[storage.len() - 1]);
    }
}

/// The mapping holds, under a key, the first value stored under it.
proof fn lemma_storage_map_first<T>(storage: Seq<(String, T)>, key: Seq<char>, i: int)
    requires
        0 <= i < storage.len(),
        storage[i].0@ == key,
        forall|j: int| 0 <= j < i ==> (#[trigger] storage[j]).0@ != key,
    ensures
        storage_map(storage).dom().contains(key),
        storage_map(storage)[key] == storage[i].1,
    decreases storage.len(),
{
    let front = storage.drop_last();
    if i == storage.len() - 1 {
        assert forall|j: int| 0 <= j < front.len() implies (#[trigger] front[j]).0@ != key by {
            assert(front[j] == storage[j]);
        }
        lemma_storage_map_absent(front, key);
    } else {
        assert(front[i] == storage[i]);
        assert forall|j: int| 0 <= j < i implies (#[trigger] front[j]).0@ != key by {
            assert(front[j] == storage[j]);
        }
        lemma_storage_map_first(front, key, i);
    }
}

/// A cache of values by key that belongs to one directory and is emptied
/// when the digest of the directory changes.
pub struct DirectoryCache<T> {
    directory: String,
    current_key: u64,
    storage: Vec<(String, T)>,
}

/// The mathematical value of a [`DirectoryCache`].
pub struct DirectoryCacheView<T> {
    /// The directory that the cache belongs to.
    pub directory: Seq<char>,
    /// The digest of the directory as of the last use.
    pub current_key: u64,
    /// The values held, by key.
    pub entries: Map<Seq<char>, T>,
}

impl<T> View for DirectoryCache<T> {
    type V = DirectoryCacheView<T>;

    closed spec fn view(&self) -> DirectoryCacheView<T> {
        DirectoryCacheView {
            directory: self.directory@,
            current_key: self.current_key,
            entries: storage_map(self.storage@),
        }
    }
}

/// What a cache holds once the digest `fresh_key` is known: what it held
/// where that is the stored digest, else nothing.
pub open spec fn surviving<T>(state: DirectoryCacheView<T>, fresh_key: u64) -> Map<Seq<char>, T> {
    if state.current_key == fresh_key {
        state.entries
    } else {
        Map::empty()
    }
}

impl<T> DirectoryCache<T> {
    /// An empty cache for a directory. Its stored digest is 0.
    pub fn new(directory: String) -> (r: DirectoryCache<T>)
        ensures
            r@ == (DirectoryCacheView::<T> {
                directory: directory@,
                current_key: 0,
                entries: Map::empty(),
            }),
    {
        let cache = DirectoryCache { directory, current_key: 0, storage: Vec::new() };
        assert(cache@.entries =~= Map::<Seq<char>, T>::empty());
        cache
    }

    /// The directory that the cache belongs to.
    pub fn directory(&self) -> (r: &String)
        ensures
            r@ == self@.directory,
    {
        &self.directory
    }

    /// The value held under `key`, made by `inserter` where none is held.
    ///
    /// Where `fresh_key` is not the stored digest, the cache is emptied
    /// first and the digest stored.
    pub fn get_or_insert<F: FnOnce() -> T>(&mut self, fresh_key: u64, key: String, inserter: F) -> (r:
        &T)
        requires
            !surviving(old(self)@, fresh_key).dom().contains(key@) ==> inserter.requires(()),
        ensures
            final(self)@.directory == old(self)@.directory,
            final(self)@.current_key == fresh_key,
            final(self)@.entries.dom().contains(key@),
            final(self)@.entries[key@] == *r,
            surviving(old(self)@, fresh_key).dom().contains(key@) ==> final(self)@.entries
                == surviving(old(self)@, fresh_key),
            !surviving(old(self)@, fresh_key).dom().contains(key@) ==> inserter.ensures((), *r)
                && final(self)@.entries == surviving(old(self)@, fresh_key).insert(key@, *r),
    {
        if self.current_key != fresh_key {
            self.current_key = fresh_key;
            self.storage = Vec::new();
            assert(storage_map(self.storage@) =~= Map::<Seq<char>, T>::empty());
        }
        let n = self.storage.len();
        let mut i: usize = 0;
        while i < n
            invariant
                n == self.storage@.len(),
                i <= n,
                self.directory@ == old(self).directory@,
                self.current_key == fresh_key,
                storage_map(self.storage@) == surviving(old(self)@, fresh_key),
                forall|j: int| 0 <= j < i ==> (#[trigger] self.storage@[j]).0@ != key@,
            decreases n - i,
        {
            if text_eq(self.storage[i].0.as_str(), key.as_str()) {
                proof {
                    lemma_storage_map_first(self.storage@, key@, i as int);
                }
                return &self.storage[i].1;
            }
            i += 1;
        }
        let ghost before = self.storage@;
        proof {
            lemma_storage_map_absent(before, key@);
        }
        let value = inserter();
        self.storage.push((key, value));
        proof {
            assert(self.storage@.drop_last() =~= before);
        }
        &self.storage[n].1
    }
}


} // verus!
