//! An open-addressing hash map whose buckets live in two flat vectors: one of
//! per-bucket metadata and one of entries.
//!
//! Collisions are resolved by rehashing: the probe sequence of a key is its
//! hash, the hash of that hash, and so on. Removed entries leave a tombstone
//! so that probe sequences running through them stay intact.
use vstd::prelude::*;

use crate::crc::crc32c::crc32c_raw;
use crate::crc::{crc32c_spec, lemma_crc32c_write_concat, Crc32C};
use crate::hash::CrcHasher;
use vstd::utf8::encode_utf8;

verus! {

/// How `insert_with_strategy` treats a key that is already present.
pub enum InsertStrategy {
    Replace,
    ErrorOnDuplicate,
}

#[derive(Debug)]
pub enum Error {
    KeyAlreadyPresentInMap,
    KeyNotFound,
}

/// Builds the hasher used by every [`FlatMap`].
pub struct FlatMapHasherBuilder;

impl FlatMapHasherBuilder {
    pub fn build_hasher(&self) -> (hasher: CrcHasher)
        ensures
            hasher.state() == Crc32C::initial_value(),
    {
        CrcHasher::default()
    }
}

/// Keys of a [`FlatMap`]. A key is identified by the bytes it feeds into the
/// hasher: two keys are the same key exactly when those bytes are equal.
pub trait MapKey: Sized {
    /// The bytes that identify the key.
    spec fn key_bytes(&self) -> Seq<u8>;

    /// Feeds the key into `hasher`.
    fn feed(&self, hasher: &mut CrcHasher)
        ensures
            final(hasher).state() == crc32c_raw(old(hasher).state(), self.key_bytes()),
    ;

    /// Whether `self` and `other` are the same key.
    fn same_key(&self, other: &Self) -> (same: bool)
        ensures
            same == (self.key_bytes() == other.key_bytes()),
    ;
}

/// The little-endian bytes of a 64-bit value.
pub open spec fn u64_le_bytes(v: u64) -> Seq<u8> {
    seq![
        (v & 0xff) as u8,
        ((v >> 8u64) & 0xff) as u8,
        ((v >> 16u64) & 0xff) as u8,
        ((v >> 24u64) & 0xff) as u8,
        ((v >> 32u64) & 0xff) as u8,
        ((v >> 40u64) & 0xff) as u8,
        ((v >> 48u64) & 0xff) as u8,
        ((v >> 56u64) & 0xff) as u8,
    ]
}

fn u64_to_le_vec(v: u64) -> (bytes: Vec<u8>)
    ensures
        bytes@ == u64_le_bytes(v),
{
    let mut bytes: Vec<u8> = Vec::new();
    bytes.push((v & 0xff) as u8);
    bytes.push(((v >> 8) & 0xff) as u8);
    bytes.push(((v >> 16) & 0xff) as u8);
    bytes.push(((v >> 24) & 0xff) as u8);
    bytes.push(((v >> 32) & 0xff) as u8);
    bytes.push(((v >> 40) & 0xff) as u8);
    bytes.push(((v >> 48) & 0xff) as u8);
    bytes.push(((v >> 56) & 0xff) as u8);
    assert(bytes@ =~= u64_le_bytes(v));
    bytes
}

impl MapKey for u64 {
    open spec fn key_bytes(&self) -> Seq<u8> {
        u64_le_bytes(*self)
    }

    fn feed(&self, hasher: &mut CrcHasher) {
        let bytes = u64_to_le_vec(*self);
        hasher.write(bytes.as_slice());
    }

    fn same_key(&self, other: &Self) -> (same: bool) {
        let same = *self == *other;
        proof {
            if u64_le_bytes(*self) == u64_le_bytes(*other) {
                lemma_u64_le_bytes_injective(*self, *other);
            }
        }
        same
    }
}

proof fn lemma_u64_le_bytes_injective(a: u64, b: u64)
    requires
        u64_le_bytes(a) == u64_le_bytes(b),
    ensures
        a == b,
{
    let sa = u64_le_bytes(a);
    let sb = u64_le_bytes(b);
    assert(sa[0] == sb[0] && sa[1] == sb[1] && sa[2] == sb[2] && sa[3] == sb[3]);
    assert(sa[4] == sb[4] && sa[5] == sb[5] && sa[6] == sb[6] && sa[7] == sb[7]);
    assert(a == b) by (bit_vector)
        requires
            (a & 0xff) as u8 == (b & 0xff) as u8,
            ((a >> 8u64) & 0xff) as u8 == ((b >> 8u64) & 0xff) as u8,
            ((a >> 16u64) & 0xff) as u8 == ((b >> 16u64) & 0xff) as u8,
            ((a >> 24u64) & 0xff) as u8 == ((b >> 24u64) & 0xff) as u8,
            ((a >> 32u64) & 0xff) as u8 == ((b >> 32u64) & 0xff) as u8,
            ((a >> 40u64) & 0xff) as u8 == ((b >> 40u64) & 0xff) as u8,
            ((a >> 48u64) & 0xff) as u8 == ((b >> 48u64) & 0xff) as u8,
            ((a >> 56u64) & 0xff) as u8 == ((b >> 56u64) & 0xff) as u8,
    ;
}

/// Strings feed their UTF-8 bytes followed by a terminating `0xff`.
impl MapKey for String {
    open spec fn key_bytes(&self) -> Seq<u8> {
        encode_utf8(self@).push(0xffu8)
    }

    fn feed(&self, hasher: &mut CrcHasher) {
        let bytes = self.as_str().as_bytes();
        let ghost start = hasher.state();
        hasher.write(bytes);
        let mut tail: Vec<u8> = Vec::new();
        tail.push(0xff);
        hasher.write(tail.as_slice());
        proof {
            lemma_crc32c_write_concat(start, bytes@, tail@);
            assert(bytes@ + tail@ =~= self.key_bytes());
        }
    }

    fn same_key(&self, other: &Self) -> (same: bool) {
        let a = self.as_str().as_bytes();
        let b = other.as_str().as_bytes();
        assert(a@ == encode_utf8(self@));
        assert(b@ == encode_utf8(other@));
        if a.len() != b.len() {
            proof {
                assert(self.key_bytes().len() != other.key_bytes().len());
            }
            return false;
        }
        let mut i: usize = 0;
        while i < a.len()
            invariant
                a@ == encode_utf8(self@),
                b@ == encode_utf8(other@),
                a@.len() == b@.len(),
                i <= a@.len(),
                forall|j: int| 0 <= j < i ==> a@[j] == b@[j],
            decreases a@.len() - i,
        {
            if a[i] != b[i] {
                proof {
                    assert(self.key_bytes() == a@.push(0xffu8));
                    assert(other.key_bytes() == b@.push(0xffu8));
                    assert(self.key_bytes()[i as int] == a@[i as int]);
                    assert(other.key_bytes()[i as int] == b@[i as int]);
                }
                return false;
            }
            i = i + 1;
        }
        proof {
            assert(a@ =~= b@);
            assert(self.key_bytes() =~= other.key_bytes());
        }
        true
    }
}

/// The hash of a key, given the bytes that identify it.
pub open spec fn key_hash_spec(bytes: Seq<u8>) -> u64 {
    crc32c_spec(bytes) as u64
}

/// The hash of a hash, used to continue a probe sequence.
pub open spec fn rehash_spec(hash: u64) -> u64 {
    crc32c_spec(u64_le_bytes(hash)) as u64
}

/// The `n`-th hash of the probe sequence that starts at `hash`.
pub open spec fn probe_hash(hash: u64, n: nat) -> u64
    decreases n,
{
    if n == 0 {
        hash
    } else {
        rehash_spec(probe_hash(hash, (n - 1) as nat))
    }
}

/// The number of probes tried before a lookup falls back to a full scan.
/// Probe hashes after the first are 32-bit values, so after this many steps
/// the probe sequence has entered a cycle that it has already visited.
pub const MAX_PROBES: u64 = 0x1_0000_0001;

const EMPTY_FLAG: u64 = 0x8000_0000_0000_0000;
const DELETED_FLAG: u64 = 0x4000_0000_0000_0000;
const HASH_MASK: u64 = 0x7FFF_FFFF_FFFF_FFFF;
const FLAGS_MASK: u64 = 0xC000_0000_0000_0000;

enum BucketState {
    Empty,
    Deleted,
    InUse(u64),
}

/// Metadata of one bucket: a hash with two flag bits on top.
/// Bit 63 marks a free bucket; bit 62 marks a tombstone among free buckets.
struct Meta {
    hash: u64,
}

spec fn meta_in_use(h: u64) -> bool {
    h & 0x8000_0000_0000_0000u64 == 0
}

spec fn meta_empty(h: u64) -> bool {
    h & 0xC000_0000_0000_0000u64 == 0x8000_0000_0000_0000u64
}

spec fn meta_deleted(h: u64) -> bool {
    h & 0xC000_0000_0000_0000u64 == 0xC000_0000_0000_0000u64
}

spec fn meta_valid(h: u64) -> bool {
    h <= 0x7FFF_FFFF_FFFF_FFFFu64 || h == 0x8000_0000_0000_0000u64 || h
        == 0xC000_0000_0000_0000u64
}

proof fn lemma_meta_bits(h: u64)
    by (bit_vector)
    ensures
        h <= 0x7FFF_FFFF_FFFF_FFFFu64 ==> (h & 0x8000_0000_0000_0000u64 == 0 && h
            & 0x7FFF_FFFF_FFFF_FFFFu64 == h && h & 0xC000_0000_0000_0000u64
            != 0x8000_0000_0000_0000u64 && h & 0xC000_0000_0000_0000u64
            != 0xC000_0000_0000_0000u64),
        h == 0x8000_0000_0000_0000u64 ==> (h & 0x8000_0000_0000_0000u64 != 0 && h
            & 0xC000_0000_0000_0000u64 == 0x8000_0000_0000_0000u64),
        h == 0xC000_0000_0000_0000u64 ==> (h & 0x8000_0000_0000_0000u64 != 0 && h
            & 0xC000_0000_0000_0000u64 == 0xC000_0000_0000_0000u64),
        0x7FFF_FFFF_FFFF_FFFFu64 & h <= 0x7FFF_FFFF_FFFF_FFFFu64,
        h <= 0xFFFF_FFFFu64 ==> 0x7FFF_FFFF_FFFF_FFFFu64 & h == h,
        h <= 0xFFFF_FFFFu64 ==> h & 0x7FFF_FFFF_FFFF_FFFFu64 == h,
        (h & 0x8000_0000_0000_0000u64 == 0) ==> h & 0x7FFF_FFFF_FFFF_FFFFu64 == h,
{
}

impl Meta {
    spec fn valid(&self) -> bool {
        meta_valid(self.hash)
    }

    spec fn in_use(&self) -> bool {
        meta_in_use(self.hash)
    }

    spec fn empty(&self) -> bool {
        meta_empty(self.hash)
    }

    spec fn deleted(&self) -> bool {
        meta_deleted(self.hash)
    }

    fn new() -> (meta: Self)
        ensures
            meta.valid(),
            meta.empty(),
            !meta.in_use(),
    {
        proof {
            lemma_meta_bits(EMPTY_FLAG);
        }
        Meta { hash: EMPTY_FLAG }
    }

    fn is_bucket_empty(&self) -> (empty: bool)
        ensures
            empty == self.empty(),
    {
        (self.hash & FLAGS_MASK) == EMPTY_FLAG
    }

    fn is_bucket_deleted(&self) -> (deleted: bool)
        ensures
            deleted == self.deleted(),
    {
        (self.hash & FLAGS_MASK) == FLAGS_MASK
    }

    fn is_bucket_in_use(&self) -> (in_use: bool)
        ensures
            in_use == self.in_use(),
    {
        (self.hash & EMPTY_FLAG) == 0
    }

    fn get_bucket_state(&self) -> (state: BucketState)
        requires
            self.valid(),
        ensures
            state is InUse <==> self.in_use(),
            state is Empty <==> self.empty(),
            state is Deleted <==> self.deleted(),
            state matches BucketState::InUse(h) ==> h == self.hash,
    {
        proof {
            lemma_meta_bits(self.hash);
        }
        if self.is_bucket_in_use() {
            BucketState::InUse(self.hash & HASH_MASK)
        } else if self.is_bucket_deleted() {
            BucketState::Deleted
        } else {
            BucketState::Empty
        }
    }

    fn set_in_use(&mut self, hash: u64)
        ensures
            final(self).valid(),
            final(self).in_use(),
            final(self).hash == HASH_MASK & hash,
    {
        proof {
            lemma_meta_bits(hash);
            lemma_meta_bits(HASH_MASK & hash);
        }
        self.hash = HASH_MASK & hash;
    }

    fn set_deleted(&mut self)
        ensures
            final(self).valid(),
            final(self).deleted(),
            !final(self).in_use(),
            !final(self).empty(),
    {
        proof {
            lemma_meta_bits(FLAGS_MASK);
        }
        self.hash = FLAGS_MASK;
    }

    fn set_empty(&mut self)
        ensures
            final(self).valid(),
            final(self).empty(),
            !final(self).in_use(),
    {
        proof {
            lemma_meta_bits(EMPTY_FLAG);
        }
        self.hash = EMPTY_FLAG;
    }

    fn get_hash(&self) -> (hash: Option<u64>)
        requires
            self.valid(),
        ensures
            hash is Some <==> self.in_use(),
            hash matches Some(h) ==> h == self.hash,
    {
        proof {
            lemma_meta_bits(self.hash);
        }
        if self.is_bucket_in_use() {
            Some(self.hash & HASH_MASK)
        } else {
            None
        }
    }

    fn matches_hash(&self, hash: u64) -> (matches: Option<bool>)
        requires
            self.valid(),
        ensures
            matches is Some <==> self.in_use(),
            matches matches Some(m) ==> m == ((hash & HASH_MASK) == self.hash),
    {
        if self.is_bucket_in_use() {
            Some((hash & HASH_MASK) == self.hash)
        } else {
            None
        }
    }
}

spec fn count_in_use(metas: Seq<Meta>) -> nat
    decreases metas.len(),
{
    if metas.len() == 0 {
        0
    } else {
        count_in_use(metas.drop_last()) + if metas.last().in_use() {
            1nat
        } else {
            0nat
        }
    }
}

proof fn lemma_count_bounded(metas: Seq<Meta>)
    ensures
        count_in_use(metas) <= metas.len(),
    decreases metas.len(),
{
    if metas.len() > 0 {
        lemma_count_bounded(metas.drop_last());
    }
}

proof fn lemma_count_full(metas: Seq<Meta>)
    requires
        forall|i: int| 0 <= i < metas.len() ==> #[trigger] metas[i].in_use(),
    ensures
        count_in_use(metas) == metas.len(),
    decreases metas.len(),
{
    if metas.len() > 0 {
        lemma_count_full(metas.drop_last());
    }
}

proof fn lemma_count_none(metas: Seq<Meta>)
    requires
        forall|i: int| 0 <= i < metas.len() ==> !(#[trigger] metas[i].in_use()),
    ensures
        count_in_use(metas) == 0,
    decreases metas.len(),
{
    if metas.len() > 0 {
        lemma_count_none(metas.drop_last());
    }
}

proof fn lemma_count_update(metas: Seq<Meta>, i: int, m: Meta)
    requires
        0 <= i < metas.len(),
    ensures
        count_in_use(metas.update(i, m)) + (if metas[i].in_use() {
            1int
        } else {
            0int
        }) == count_in_use(metas) + (if m.in_use() {
            1int
        } else {
            0int
        }),
    decreases metas.len(),
{
    if i == metas.len() - 1 {
        assert(metas.update(i, m).drop_last() =~= metas.drop_last());
    } else {
        lemma_count_update(metas.drop_last(), i, m);
        assert(metas.update(i, m).drop_last() =~= metas.drop_last().update(i, m));
    }
}

/// A hash map with open addressing over flat vectors.
pub struct FlatMap<K: MapKey, V> {
    metadata_buckets: Vec<Meta>,
    buckets: Vec<Option<(K, V)>>,
    num_elements: usize,
    capacity: usize,
    contents: Ghost<Map<Seq<u8>, V>>,
}

impl<K: MapKey, V> View for FlatMap<K, V> {
    type V = Map<Seq<u8>, V>;

    closed spec fn view(&self) -> Map<Seq<u8>, V> {
        self.contents@
    }
}

impl<K: MapKey, V> FlatMap<K, V> {
    /// Maximum load factor (in percent) before the map grows.
    pub const MAX_LOAD_FACTOR: usize = 70;

    /// Factor by which the capacity grows.
    pub const RESIZE_FACTOR: usize = 8;

    /// Capacity of a map built with [`FlatMap::new`].
    pub const DEFAULT_CAPACITY: usize = 8;

    /// Number of buckets.
    pub closed spec fn spec_capacity(&self) -> usize {
        self.capacity
    }

    /// The element counter: the number of keys in the map.
    pub closed spec fn spec_len(&self) -> usize {
        self.num_elements
    }

    closed spec fn in_use(&self, i: int) -> bool {
        self.metadata_buckets@[i].in_use()
    }

    closed spec fn empty_at(&self, i: int) -> bool {
        self.metadata_buckets@[i].empty()
    }

    closed spec fn key_at(&self, i: int) -> Seq<u8> {
        self.buckets@[i].unwrap().0.key_bytes()
    }

    closed spec fn value_at(&self, i: int) -> V {
        self.buckets@[i].unwrap().1
    }

    closed spec fn probe_slot(&self, hash: u64, n: nat) -> int {
        ((probe_hash(hash, n) as usize) % self.capacity) as int
    }

    closed spec fn path_clear(&self, hash: u64, n: nat) -> bool {
        forall|m: nat| m < n ==> !self.empty_at(#[trigger] self.probe_slot(hash, m))
    }

    closed spec fn reached_at(&self, hash: u64, i: int, n: nat) -> bool {
        &&& n < MAX_PROBES
        &&& self.probe_slot(hash, n) == i
        &&& self.path_clear(hash, n)
    }

    /// The entry in bucket `i` can be found by a lookup of its key.
    closed spec fn reachable(&self, i: int) -> bool {
        let h = key_hash_spec(self.key_at(i));
        (exists|n: nat| #[trigger] self.reached_at(h, i, n)) || self.path_clear(
            h,
            MAX_PROBES as nat,
        )
    }

    /// Well-formedness of the map.
    pub closed spec fn wf(&self) -> bool {
        &&& self.metadata_buckets@.len() == self.capacity
        &&& self.buckets@.len() == self.capacity
        &&& forall|i: int| 0 <= i < self.capacity ==> #[trigger] self.metadata_buckets@[i].valid()
        &&& forall|i: int|
            0 <= i < self.capacity ==> (#[trigger] self.in_use(i) <==> self.buckets@[i] is Some)
        &&& forall|i: int|
            0 <= i < self.capacity && #[trigger] self.in_use(i)
                ==> self.metadata_buckets@[i].hash == key_hash_spec(self.key_at(i))
        &&& forall|i: int| 0 <= i < self.capacity && #[trigger] self.in_use(i) ==> self.reachable(i)
        &&& forall|i: int, j: int|
            0 <= i < self.capacity && 0 <= j < self.capacity && #[trigger] self.in_use(i)
                && #[trigger] self.in_use(j) && self.key_at(i) == self.key_at(j) ==> i == j
        &&& forall|i: int|
            0 <= i < self.capacity && #[trigger] self.in_use(i) ==> self.contents@.contains_key(
                self.key_at(i),
            ) && self.contents@[self.key_at(i)] == self.value_at(i)
        &&& forall|k: Seq<u8>|
            #[trigger] self.contents@.contains_key(k) ==> exists|i: int|
                0 <= i < self.capacity && #[trigger] self.in_use(i) && self.key_at(i) == k
        &&& self.contents@.dom().finite()
        &&& count_in_use(self.metadata_buckets@) == self.num_elements
        &&& self.contents@.dom().len() == count_in_use(self.metadata_buckets@)
    }
}

proof fn lemma_key_hash_small(bytes: Seq<u8>)
    ensures
        key_hash_spec(bytes) <= 0xFFFF_FFFFu64,
{
}

/// Hash of a key as computed by the map.
fn hash_key<K: MapKey>(key: &K) -> (hash: u64)
    ensures
        hash == key_hash_spec(key.key_bytes()),
        hash <= 0xFFFF_FFFFu64,
{
    let hasher_builder = FlatMapHasherBuilder;
    let mut hasher = hasher_builder.build_hasher();
    key.feed(&mut hasher);
    hasher.finish()
}

/// The next hash of a probe sequence.
fn rehash(hash: u64) -> (next: u64)
    ensures
        next == rehash_spec(hash),
{
    let hasher_builder = FlatMapHasherBuilder;
    let mut hasher = hasher_builder.build_hasher();
    let bytes = u64_to_le_vec(hash);
    hasher.write(bytes.as_slice());
    hasher.finish()
}

impl<K: MapKey, V> FlatMap<K, V> {
    /// An empty map with the default capacity.
    pub fn new() -> (map: Self)
        ensures
            map.wf(),
            map@ == Map::<Seq<u8>, V>::empty(),
            map.spec_capacity() == Self::DEFAULT_CAPACITY,
            map.spec_len() == 0,
    {
        Self::new_with_hasher(FlatMapHasherBuilder)
    }

    /// An empty map with `capacity` buckets.
    pub fn with_capacity(capacity: usize) -> (map: Self)
        ensures
            map.wf(),
            map@ == Map::<Seq<u8>, V>::empty(),
            map.spec_capacity() == capacity,
            map.spec_len() == 0,
    {
        Self::with_capacity_and_hasher(capacity, FlatMapHasherBuilder)
    }

    /// An empty map with the default capacity.
    pub fn new_with_hasher(hasher_builder: FlatMapHasherBuilder) -> (map: Self)
        ensures
            map.wf(),
            map@ == Map::<Seq<u8>, V>::empty(),
            map.spec_capacity() == Self::DEFAULT_CAPACITY,
            map.spec_len() == 0,
    {
        Self::with_capacity_and_hasher(Self::DEFAULT_CAPACITY, hasher_builder)
    }

    /// An empty map with `capacity` buckets.
    pub fn with_capacity_and_hasher(capacity: usize, hasher_builder: FlatMapHasherBuilder) -> (map:
        Self)
        ensures
            map.wf(),
            map@ == Map::<Seq<u8>, V>::empty(),
            map.spec_capacity() == capacity,
            map.spec_len() == 0,
    {
        let mut metadata_buckets: Vec<Meta> = Vec::with_capacity(capacity);
        let mut buckets: Vec<Option<(K, V)>> = Vec::with_capacity(capacity);
        let mut i: usize = 0;
        while i < capacity
            invariant
                i <= capacity,
                metadata_buckets@.len() == i,
                buckets@.len() == i,
                forall|j: int|
                    0 <= j < i ==> #[trigger] metadata_buckets@[j].valid()
                        && metadata_buckets@[j].empty() && !metadata_buckets@[j].in_use(),
                forall|j: int| 0 <= j < i ==> #[trigger] buckets@[j] is None,
            decreases capacity - i,
        {
            metadata_buckets.push(Meta::new());
            buckets.push(None);
            i = i + 1;
        }
        proof {
            assert forall|j: int| 0 <= j < metadata_buckets@.len() implies !(
            #[trigger] metadata_buckets@[j].in_use()) by {
                assert(metadata_buckets@[j].valid());
            }
            lemma_count_none(metadata_buckets@);
        }
        FlatMap {
            metadata_buckets,
            buckets,
            num_elements: 0,
            capacity,
            contents: Ghost(Map::empty()),
        }
    }

    /// Fill level in percent: the number of keys * 100 / capacity.
    pub fn load_factor(&self) -> (factor: usize)
        requires
            self.wf(),
            self.spec_capacity() > 0,
            self.spec_len() * 100 <= usize::MAX,
        ensures
            factor == (self@.len() as int * 100) / (self.spec_capacity() as int),
            self.spec_len() == self@.len(),
            factor <= 100,
    {
        proof {
            self.lemma_len_counts_keys();
            let l = self.spec_len() as int;
            let c = self.spec_capacity() as int;
            assert((l * 100) / c <= 100) by (nonlinear_arith)
                requires
                    0 <= l <= c,
                    c > 0,
            ;
        }
        (self.num_elements * 100) / self.capacity
    }

    pub fn capacity(&self) -> (capacity: usize)
        ensures
            capacity == self.spec_capacity(),
    {
        self.capacity
    }

    /// The number of keys in the map.
    pub fn len(&self) -> (len: usize)
        requires
            self.wf(),
        ensures
            len == self.spec_len(),
            len == self@.len(),
            self@.dom().finite(),
            len <= self.spec_capacity(),
    {
        proof {
            self.lemma_len_counts_keys();
        }
        self.num_elements
    }
}

impl<K: MapKey, V> FlatMap<K, V> {
    /// The element counter of a well-formed map is its number of keys, a
    /// finite set that fits in the buckets.
    pub proof fn lemma_len_counts_keys(&self)
        requires
            self.wf(),
        ensures
            self.spec_len() == self@.len(),
            self@.dom().finite(),
            self.spec_len() <= self.spec_capacity(),
    {
        lemma_count_bounded(self.metadata_buckets@);
    }
}

proof fn lemma_meta_exclusive(m: Meta)
    requires
        m.valid(),
    ensures
        !(m.in_use() && m.empty()),
        !(m.in_use() && m.deleted()),
        !(m.empty() && m.deleted()),
        m.in_use() || m.empty() || m.deleted(),
{
    lemma_meta_bits(m.hash);
}

impl<K: MapKey, V> FlatMap<K, V> {
    /// Whether an entry placed in bucket `i` under hash `h` would be found by
    /// a lookup in `self`.
    closed spec fn reach_ok(&self, h: u64, i: int) -> bool {
        (exists|n: nat| #[trigger] self.reached_at(h, i, n)) || self.path_clear(h, MAX_PROBES as nat)
    }

    proof fn lemma_probe_slot_in_range(&self, h: u64, n: nat)
        requires
            self.capacity > 0,
        ensures
            0 <= self.probe_slot(h, n) < self.capacity,
    {
    }

    /// Reachability only depends on which buckets are empty, and it survives
    /// any change that does not empty a bucket.
    proof fn lemma_reach_transfer(old: &Self, new: &Self, h: u64, i: int)
        requires
            old.capacity == new.capacity,
            old.capacity > 0,
            forall|j: int| 0 <= j < new.capacity && #[trigger] new.empty_at(j) ==> old.empty_at(j),
            old.reach_ok(h, i),
        ensures
            new.reach_ok(h, i),
    {
        if exists|n: nat| #[trigger] old.reached_at(h, i, n) {
            let n = choose|n: nat| #[trigger] old.reached_at(h, i, n);
            assert forall|m: nat| m < n implies !new.empty_at(#[trigger] new.probe_slot(h, m)) by {
                old.lemma_probe_slot_in_range(h, m);
                assert(!old.empty_at(old.probe_slot(h, m)));
            }
            assert(new.reached_at(h, i, n));
        } else {
            assert forall|m: nat| m < MAX_PROBES implies !new.empty_at(
                #[trigger] new.probe_slot(h, m),
            ) by {
                old.lemma_probe_slot_in_range(h, m);
                assert(!old.empty_at(old.probe_slot(h, m)));
            }
        }
    }


    /// A lookup that meets an empty bucket after `s` probes that did not hold
    /// the key proves that the key is absent.
    proof fn lemma_absent_when_empty(&self, kb: Seq<u8>, h: u64, s: nat)
        requires
            self.wf(),
            self.capacity > 0,
            h == key_hash_spec(kb),
            s < MAX_PROBES,
            self.empty_at(self.probe_slot(h, s)),
            forall|m: nat|
                m < s ==> !(self.in_use(#[trigger] self.probe_slot(h, m)) && self.key_at(
                    self.probe_slot(h, m),
                ) == kb),
        ensures
            !self@.contains_key(kb),
    {
        if self@.contains_key(kb) {
            let i = choose|i: int|
                0 <= i < self.capacity && #[trigger] self.in_use(i) && self.key_at(i) == kb;
            assert(self.reachable(i));
            self.lemma_probe_slot_in_range(h, s);
            let idx = self.probe_slot(h, s);
            assert(self.metadata_buckets@[idx].valid());
            lemma_meta_exclusive(self.metadata_buckets@[idx]);
            if exists|n: nat| #[trigger] self.reached_at(h, i, n) {
                let n = choose|n: nat| #[trigger] self.reached_at(h, i, n);
                if n < s {
                    assert(self.probe_slot(h, n) == i);
                } else if n == s {
                    assert(self.in_use(idx));
                } else {
                    assert(!self.empty_at(self.probe_slot(h, s)));
                }
            } else {
                assert(!self.empty_at(self.probe_slot(h, s)));
            }
        }
    }

    /// No bucket in use holds the key, so the key is absent.
    proof fn lemma_absent_when_no_bucket(&self, kb: Seq<u8>)
        requires
            self.wf(),
            forall|j: int|
                0 <= j < self.capacity ==> !(#[trigger] self.in_use(j) && self.key_at(j) == kb),
        ensures
            !self@.contains_key(kb),
    {
        if self@.contains_key(kb) {
            let i = choose|i: int|
                0 <= i < self.capacity && #[trigger] self.in_use(i) && self.key_at(i) == kb;
            assert(!(self.in_use(i) && self.key_at(i) == kb));
        }
    }

    /// Finds the bucket that holds `key`.
    fn lookup_index(&self, key: &K) -> (index: Option<usize>)
        requires
            self.wf(),
            self.capacity > 0,
        ensures
            match index {
                Some(i) => i < self.capacity && self.in_use(i as int) && self.key_at(i as int)
                    == key.key_bytes(),
                None => !self@.contains_key(key.key_bytes()),
            },
    {
        let key_hash = hash_key(key);
        let ghost kb = key.key_bytes();
        let mut current_hash = key_hash;
        let mut steps: u64 = 0;
        while steps < MAX_PROBES
            invariant
                self.wf(),
                self.capacity > 0,
                kb == key.key_bytes(),
                key_hash == key_hash_spec(kb),
                key_hash <= 0xFFFF_FFFFu64,
                steps <= MAX_PROBES,
                current_hash == probe_hash(key_hash, steps as nat),
                self.path_clear(key_hash, steps as nat),
                forall|m: nat|
                    m < steps ==> !(self.in_use(#[trigger] self.probe_slot(key_hash, m))
                        && self.key_at(self.probe_slot(key_hash, m)) == kb),
            decreases MAX_PROBES - steps,
        {
            let index = (current_hash as usize) % self.capacity;
            let ghost slot = self.probe_slot(key_hash, steps as nat);
            assert(index == slot);
            proof {
                assert(self.metadata_buckets@[slot].valid());
                lemma_meta_exclusive(self.metadata_buckets@[slot]);
                lemma_meta_bits(key_hash);
            }
            match self.metadata_buckets[index].get_bucket_state() {
                BucketState::Empty => {
                    proof {
                        self.lemma_absent_when_empty(kb, key_hash, steps as nat);
                    }
                    return None;
                },
                BucketState::InUse(hash) => {
                    if hash == (key_hash & HASH_MASK) {
                        let found = match &self.buckets[index] {
                            Some(entry) => entry.0.same_key(key),
                            None => false,
                        };
                        if found {
                            return Some(index);
                        }
                    }
                },
                BucketState::Deleted => {},
            }
            current_hash = rehash(current_hash);
            proof {
                assert forall|m: nat| m < steps + 1 implies !self.empty_at(
                    #[trigger] self.probe_slot(key_hash, m),
                ) by {
                    if m < steps {
                        assert(self.path_clear(key_hash, steps as nat));
                    }
                }
                assert forall|m: nat| m < steps + 1 implies !(self.in_use(
                    #[trigger] self.probe_slot(key_hash, m),
                ) && self.key_at(self.probe_slot(key_hash, m)) == kb) by {
                    if m == steps && self.in_use(slot) && self.key_at(slot) == kb {
                        assert(self.metadata_buckets@[slot].hash == key_hash);
                    }
                }
            }
            steps = steps + 1;
        }
        let mut i: usize = 0;
        while i < self.capacity
            invariant
                self.wf(),
                kb == key.key_bytes(),
                i <= self.capacity,
                forall|j: int| 0 <= j < i ==> !(#[trigger] self.in_use(j) && self.key_at(j) == kb),
            decreases self.capacity - i,
        {
            if self.metadata_buckets[i].is_bucket_in_use() {
                let found = match &self.buckets[i] {
                    Some(entry) => entry.0.same_key(key),
                    None => false,
                };
                if found {
                    return Some(i);
                }
            }
            i = i + 1;
        }
        proof {
            self.lemma_absent_when_no_bucket(kb);
        }
        None
    }

    /// Puts a new key into the free bucket `target`.
    fn place_new(&mut self, target: usize, key_hash: u64, key: K, value: V)
        requires
            old(self).wf(),
            old(self).capacity > 0,
            target < old(self).capacity,
            !old(self).in_use(target as int),
            key_hash == key_hash_spec(key.key_bytes()),
            !old(self)@.contains_key(key.key_bytes()),
            old(self).reach_ok(key_hash, target as int),
            old(self).num_elements < usize::MAX,
        ensures
            final(self).wf(),
            final(self).capacity == old(self).capacity,
            final(self).num_elements == old(self).num_elements + 1,
            final(self)@ == old(self)@.insert(key.key_bytes(), value),
    {
        let ghost prev = *self;
        let ghost kb = key.key_bytes();
        let mut meta = Meta::new();
        meta.set_in_use(key_hash);
        proof {
            lemma_key_hash_small(kb);
            lemma_meta_bits(key_hash);
            lemma_count_update(self.metadata_buckets@, target as int, meta);
            assert(prev.metadata_buckets@[target as int].valid());
        }
        self.metadata_buckets[target] = meta;
        self.buckets[target] = Some((key, value));
        self.num_elements = self.num_elements + 1;
        self.contents = Ghost(self.contents@.insert(kb, value));
        proof {
            let t = target as int;
            assert(self.key_at(t) == kb);
            assert forall|j: int| 0 <= j < self.capacity && #[trigger] self.empty_at(j) implies prev.empty_at(j) by {
                if j == t {
                    lemma_meta_exclusive(self.metadata_buckets@[t]);
                }
            }
            assert forall|j: int| 0 <= j < self.capacity && #[trigger] self.in_use(j) implies self.reachable(j) by {
                if j == t {
                    Self::lemma_reach_transfer(&prev, self, key_hash, t);
                } else {
                    assert(prev.in_use(j));
                    assert(prev.reachable(j));
                    Self::lemma_reach_transfer(&prev, self, key_hash_spec(prev.key_at(j)), j);
                }
            }
            assert forall|j: int|
                0 <= j < self.capacity && #[trigger] self.in_use(j) && j != t implies self.key_at(j) != kb by {
                assert(prev.in_use(j));
                assert(prev.contents@.contains_key(prev.key_at(j)));
            }
            assert forall|j: int| 0 <= j < self.capacity implies (#[trigger] self.in_use(j) <==> self.buckets@[j] is Some) by {
                if j != t {
                    assert(prev.in_use(j) <==> prev.buckets@[j] is Some);
                }
            }
            assert forall|j: int| 0 <= j < self.capacity && #[trigger] self.in_use(j)
                implies self.metadata_buckets@[j].hash == key_hash_spec(self.key_at(j)) by {
                if j != t {
                    assert(prev.in_use(j));
                }
            }
            assert forall|i: int, j: int|
                0 <= i < self.capacity && 0 <= j < self.capacity && #[trigger] self.in_use(i)
                    && #[trigger] self.in_use(j) && self.key_at(i) == self.key_at(j) implies i == j by {
                if i != t && j != t {
                    assert(prev.in_use(i) && prev.in_use(j));
                }
            }
            assert forall|j: int| 0 <= j < self.capacity && #[trigger] self.in_use(j)
                implies self.contents@.contains_key(self.key_at(j)) && self.contents@[self.key_at(j)]
                == self.value_at(j) by {
                if j != t {
                    assert(prev.in_use(j));
                    assert(self.key_at(j) != kb);
                }
            }
            assert forall|k: Seq<u8>| #[trigger] self.contents@.contains_key(k) implies exists|i: int|
                0 <= i < self.capacity && #[trigger] self.in_use(i) && self.key_at(i) == k by {
                if k == kb {
                    assert(self.in_use(t));
                } else {
                    assert(prev.contents@.contains_key(k));
                    let i = choose|i: int|
                        0 <= i < prev.capacity && #[trigger] prev.in_use(i) && prev.key_at(i) == k;
                    assert(self.in_use(i));
                }
            }
            assert(self.wf());
        }
    }

    /// Inserts without growing the table.
    fn insert_without_resize(&mut self, key: K, value: V, strategy: InsertStrategy) -> (result:
        Result<(), Error>)
        requires
            old(self).wf(),
            old(self).capacity > 0,
            old(self).num_elements < old(self).capacity,
        ensures
            final(self).wf(),
            final(self).capacity == old(self).capacity,
            old(self)@.contains_key(key.key_bytes()) && strategy is ErrorOnDuplicate ==> {
                &&& result matches Err(Error::KeyAlreadyPresentInMap)
                &&& final(self)@ == old(self)@
                &&& final(self).num_elements == old(self).num_elements
            },
            !(old(self)@.contains_key(key.key_bytes()) && strategy is ErrorOnDuplicate) ==> {
                &&& result is Ok
                &&& final(self)@ == old(self)@.insert(key.key_bytes(), value)
                &&& final(self).num_elements == old(self).num_elements + if old(self)@.contains_key(
                    key.key_bytes(),
                ) {
                    0int
                } else {
                    1int
                }
            },
    {
        let key_hash = hash_key(&key);
        let ghost kb = key.key_bytes();
        let mut current_hash = key_hash;
        let mut found_deleted_slot: Option<usize> = None;
        let ghost mut deleted_step: nat = 0;
        let mut steps: u64 = 0;
        while steps < MAX_PROBES
            invariant
                self.wf(),
                *self == *old(self),
                self.capacity > 0,
                self.num_elements < self.capacity,
                kb == key.key_bytes(),
                key_hash == key_hash_spec(kb),
                key_hash <= 0xFFFF_FFFFu64,
                steps <= MAX_PROBES,
                current_hash == probe_hash(key_hash, steps as nat),
                self.path_clear(key_hash, steps as nat),
                forall|m: nat|
                    m < steps ==> !(self.in_use(#[trigger] self.probe_slot(key_hash, m))
                        && self.key_at(self.probe_slot(key_hash, m)) == kb),
                found_deleted_slot matches Some(t) ==> {
                    &&& t < self.capacity
                    &&& deleted_step < steps
                    &&& t == self.probe_slot(key_hash, deleted_step)
                    &&& !self.in_use(t as int)
                },
            decreases MAX_PROBES - steps,
        {
            let index = (current_hash as usize) % self.capacity;
            let ghost slot = self.probe_slot(key_hash, steps as nat);
            assert(index == slot);
            proof {
                assert(self.metadata_buckets@[slot].valid());
                lemma_meta_exclusive(self.metadata_buckets@[slot]);
                lemma_meta_bits(key_hash);
            }
            match self.metadata_buckets[index].get_bucket_state() {
                BucketState::Empty => {
                    proof {
                        self.lemma_absent_when_empty(kb, key_hash, steps as nat);
                        lemma_count_bounded(self.metadata_buckets@);
                    }
                    let target = match found_deleted_slot {
                        Some(deleted_slot_idx) => deleted_slot_idx,
                        None => index,
                    };
                    proof {
                        if found_deleted_slot is Some {
                            assert(self.reached_at(key_hash, target as int, deleted_step));
                        } else {
                            assert(self.reached_at(key_hash, target as int, steps as nat));
                        }
                    }
                    self.place_new(target, key_hash, key, value);
                    return Ok(());
                },
                BucketState::InUse(hash) => {
                    if hash == (key_hash & HASH_MASK) {
                        let found = match &self.buckets[index] {
                            Some(entry) => entry.0.same_key(&key),
                            None => false,
                        };
                        if found {
                            return self.update_existing(index, value, strategy);
                        }
                    }
                },
                BucketState::Deleted => {
                    if found_deleted_slot.is_none() {
                        found_deleted_slot = Some(index);
                        proof {
                            deleted_step = steps as nat;
                        }
                    }
                },
            }
            current_hash = rehash(current_hash);
            proof {
                assert forall|m: nat| m < steps + 1 implies !self.empty_at(
                    #[trigger] self.probe_slot(key_hash, m),
                ) by {
                    if m < steps {
                        assert(self.path_clear(key_hash, steps as nat));
                    }
                }
                assert forall|m: nat| m < steps + 1 implies !(self.in_use(
                    #[trigger] self.probe_slot(key_hash, m),
                ) && self.key_at(self.probe_slot(key_hash, m)) == kb) by {
                    if m == steps && self.in_use(slot) && self.key_at(slot) == kb {
                        assert(self.metadata_buckets@[slot].hash == key_hash);
                    }
                }
            }
            steps = steps + 1;
        }
        // Every probe was spent without meeting an empty bucket: scan the table.
        let mut i: usize = 0;
        while i < self.capacity
            invariant
                self.wf(),
                *self == *old(self),
                self.num_elements < self.capacity,
                kb == key.key_bytes(),
                key_hash == key_hash_spec(kb),
                self.path_clear(key_hash, MAX_PROBES as nat),
                i <= self.capacity,
                forall|j: int| 0 <= j < i ==> !(#[trigger] self.in_use(j) && self.key_at(j) == kb),
            decreases self.capacity - i,
        {
            if self.metadata_buckets[i].is_bucket_in_use() {
                let found = match &self.buckets[i] {
                    Some(entry) => entry.0.same_key(&key),
                    None => false,
                };
                if found {
                    return self.update_existing(i, value, strategy);
                }
            }
            i = i + 1;
        }
        proof {
            self.lemma_absent_when_no_bucket(kb);
        }
        let target = self.find_free_bucket();
        proof {
            assert(self.reach_ok(key_hash, target as int));
            lemma_count_bounded(self.metadata_buckets@);
        }
        self.place_new(target, key_hash, key, value);
        Ok(())
    }

    /// Applies `strategy` to the existing entry in bucket `index`.
    fn update_existing(&mut self, index: usize, value: V, strategy: InsertStrategy) -> (result:
        Result<(), Error>)
        requires
            old(self).wf(),
            index < old(self).capacity,
            old(self).in_use(index as int),
        ensures
            final(self).wf(),
            final(self).capacity == old(self).capacity,
            final(self).num_elements == old(self).num_elements,
            old(self)@.contains_key(old(self).key_at(index as int)),
            strategy is ErrorOnDuplicate ==> (result matches Err(Error::KeyAlreadyPresentInMap))
                && final(self)@ == old(self)@,
            strategy is Replace ==> result is Ok && final(self)@ == old(self)@.insert(
                old(self).key_at(index as int),
                value,
            ),
    {
        match strategy {
            InsertStrategy::ErrorOnDuplicate => Err(Error::KeyAlreadyPresentInMap),
            InsertStrategy::Replace => {
                self.replace_value(index, value);
                Ok(())
            },
        }
    }

    /// Replaces the value of the entry in bucket `index`, keeping its key.
    fn replace_value(&mut self, index: usize, value: V)
        requires
            old(self).wf(),
            index < old(self).capacity,
            old(self).in_use(index as int),
        ensures
            final(self).wf(),
            final(self).capacity == old(self).capacity,
            final(self).num_elements == old(self).num_elements,
            final(self)@ == old(self)@.insert(old(self).key_at(index as int), value),
    {
        let ghost prev = *self;
        let ghost kb = self.key_at(index as int);
        let entry = self.buckets[index].take();
        match entry {
            Some((key_in_map, _old_value)) => {
                self.buckets[index] = Some((key_in_map, value));
            },
            None => {},
        }
        self.contents = Ghost(self.contents@.insert(kb, value));
        proof {
            let t = index as int;
            assert(self.metadata_buckets@ == prev.metadata_buckets@);
            assert(self.key_at(t) == kb);
            assert forall|j: int| 0 <= j < self.capacity && #[trigger] self.in_use(j) implies self.reachable(j) by {
                assert(prev.in_use(j));
                assert(prev.reachable(j));
                assert(self.key_at(j) == prev.key_at(j));
                Self::lemma_reach_transfer(&prev, self, key_hash_spec(prev.key_at(j)), j);
            }
            assert forall|k: Seq<u8>| #[trigger] self.contents@.contains_key(k) implies exists|i: int|
                0 <= i < self.capacity && #[trigger] self.in_use(i) && self.key_at(i) == k by {
                assert(prev.contents@.contains_key(k));
                let i = choose|i: int|
                    0 <= i < prev.capacity && #[trigger] prev.in_use(i) && prev.key_at(i) == k;
                assert(self.key_at(i) == prev.key_at(i));
                assert(self.in_use(i));
            }
            assert forall|j: int|
                0 <= j < self.capacity && #[trigger] self.in_use(j) implies self.contents@.contains_key(
                self.key_at(j),
            ) && self.contents@[self.key_at(j)] == self.value_at(j) by {
                assert(prev.in_use(j));
                assert(prev.in_use(t));
                if j != t {
                    assert(prev.key_at(j) != kb);
                }
            }
            assert(self.contents@.dom() =~= prev.contents@.dom());
            assert forall|j: int| 0 <= j < self.capacity implies (#[trigger] self.in_use(j) <==> self.buckets@[j] is Some) by {
                if j != t {
                    assert(prev.in_use(j) <==> prev.buckets@[j] is Some);
                }
            }
            assert forall|j: int| 0 <= j < self.capacity && #[trigger] self.in_use(j)
                implies self.metadata_buckets@[j].hash == key_hash_spec(self.key_at(j)) by {
                assert(prev.in_use(j));
            }
            assert forall|i: int, j: int|
                0 <= i < self.capacity && 0 <= j < self.capacity && #[trigger] self.in_use(i)
                    && #[trigger] self.in_use(j) && self.key_at(i) == self.key_at(j) implies i == j by {
                assert(prev.in_use(i) && prev.in_use(j));
            }
            assert(self.wf());
        }
    }

    /// Finds a bucket that is not in use; one exists while the map holds
    /// fewer entries than buckets.
    fn find_free_bucket(&self) -> (index: usize)
        requires
            self.wf(),
            self.num_elements < self.capacity,
        ensures
            index < self.capacity,
            !self.in_use(index as int),
    {
        let mut i: usize = 0;
        while i < self.capacity
            invariant
                self.wf(),
                self.num_elements < self.capacity,
                i <= self.capacity,
                forall|j: int| 0 <= j < i ==> #[trigger] self.in_use(j),
            decreases self.capacity - i,
        {
            if !self.metadata_buckets[i].is_bucket_in_use() {
                return i;
            }
            i = i + 1;
        }
        proof {
            assert forall|j: int| 0 <= j < self.metadata_buckets@.len() implies #[trigger] self.metadata_buckets@[j].in_use() by {
                assert(self.in_use(j));
            }
            lemma_count_full(self.metadata_buckets@);
        }
        0
    }
}

impl<K: MapKey, V> FlatMap<K, V> {
    /// Moves every entry into a fresh table of `new_capacity` buckets.
    fn resize(&mut self, new_capacity: usize)
        requires
            old(self).wf(),
            new_capacity > old(self).capacity,
        ensures
            final(self).wf(),
            final(self)@ == old(self)@,
            final(self).capacity == new_capacity,
            final(self).num_elements == old(self)@.len(),
    {
        let ghost prev = *self;
        let mut old_map = Self::with_capacity_and_hasher(new_capacity, FlatMapHasherBuilder);
        core::mem::swap(self, &mut old_map);
        let old_capacity = old_map.capacity;
        let old_metadata = old_map.metadata_buckets;
        let mut old_buckets = old_map.buckets;
        let mut index: usize = 0;
        while index < old_capacity
            invariant
                prev.wf(),
                old_capacity == prev.capacity,
                old_metadata@ == prev.metadata_buckets@,
                old_buckets@.len() == prev.capacity,
                forall|j: int| index <= j < old_capacity ==> #[trigger] old_buckets@[j] == prev.buckets@[j],
                index <= old_capacity,
                self.wf(),
                self.capacity == new_capacity,
                new_capacity > old_capacity,
                self.num_elements <= index,
                self.num_elements == self@.dom().len(),
                forall|k: Seq<u8>| #[trigger] self@.contains_key(k) <==> (exists|j: int|
                    0 <= j < index && #[trigger] prev.in_use(j) && prev.key_at(j) == k),
                forall|k: Seq<u8>| #[trigger] self@.contains_key(k) ==> prev@.contains_key(k) && self@[k] == prev@[k],
            decreases old_capacity - index,
        {
            if old_metadata[index].is_bucket_in_use() {
                let entry = old_buckets[index].take();
                match entry {
                    Some((key, value)) => {
                        let ghost kb = key.key_bytes();
                        proof {
                            let i = index as int;
                            assert(prev.in_use(i));
                            assert(prev.key_at(i) == kb);
                            assert(prev.value_at(i) == value);
                            if self@.contains_key(kb) {
                                let j = choose|j: int| 0 <= j < index && #[trigger] prev.in_use(j) && prev.key_at(j) == kb;
                                assert(j == i);
                            }
                        }
                        let result = self.insert_without_resize(key, value, InsertStrategy::ErrorOnDuplicate);
                        proof {
                            let i = index as int;
                            assert forall|k: Seq<u8>| #[trigger] self@.contains_key(k) <==> (exists|j: int|
                                0 <= j < index + 1 && #[trigger] prev.in_use(j) && prev.key_at(j) == k) by {
                                if k == kb {
                                    assert(prev.in_use(i) && prev.key_at(i) == k);
                                }
                            }
                        }
                    },
                    None => {
                        proof {
                            assert(prev.in_use(index as int));
                        }
                    },
                }
            } else {
                proof {
                    assert forall|k: Seq<u8>| #[trigger] self@.contains_key(k) <==> (exists|j: int|
                        0 <= j < index + 1 && #[trigger] prev.in_use(j) && prev.key_at(j) == k) by {
                        if exists|j: int| 0 <= j < index + 1 && #[trigger] prev.in_use(j) && prev.key_at(j) == k {
                            let j = choose|j: int| 0 <= j < index + 1 && #[trigger] prev.in_use(j) && prev.key_at(j) == k;
                            assert(j != index);
                        }
                    }
                }
            }
            index = index + 1;
        }
        proof {
            assert forall|k: Seq<u8>| #[trigger] prev@.contains_key(k) implies self@.contains_key(k) by {
                let j = choose|j: int| 0 <= j < prev.capacity && #[trigger] prev.in_use(j) && prev.key_at(j) == k;
                assert(prev.in_use(j));
            }
            assert(self@ =~= prev@);
        }
    }

    /// Inserts `value` under `key` following `strategy`, growing the table
    /// first when the load factor is above [`FlatMap::MAX_LOAD_FACTOR`].
    pub fn insert_with_strategy(&mut self, key: K, value: V, strategy: InsertStrategy) -> (result:
        Result<(), Error>)
        requires
            old(self).wf(),
            old(self).spec_capacity() > 0,
            old(self).spec_len() < usize::MAX / 100,
            old(self).spec_capacity() <= usize::MAX / 8,
        ensures
            final(self).wf(),
            final(self).spec_capacity() == if old(self).spec_len() * 100 / (old(self).spec_capacity() as int) > 70 {
                old(self).spec_capacity() * 8
            } else {
                old(self).spec_capacity() as int
            },
            old(self)@.contains_key(key.key_bytes()) && strategy is ErrorOnDuplicate ==> {
                &&& result matches Err(Error::KeyAlreadyPresentInMap)
                &&& final(self)@ == old(self)@
            },
            !(old(self)@.contains_key(key.key_bytes()) && strategy is ErrorOnDuplicate) ==> {
                &&& result is Ok
                &&& final(self)@ == old(self)@.insert(key.key_bytes(), value)
            },
            final(self).spec_len() == final(self)@.len(),
    {
        let ghost prev = *self;
        if self.load_factor() > Self::MAX_LOAD_FACTOR {
            let new_capacity = self.capacity * Self::RESIZE_FACTOR;
            proof {
                lemma_count_bounded(self.metadata_buckets@);
            }
            self.resize(new_capacity);
        } else {
            let n = self.num_elements;
            let c = self.capacity;
            assert(n < c) by (nonlinear_arith)
                requires
                    (n * 100) / (c as int) <= 70,
                    c > 0,
            ;
        }
        self.insert_without_resize(key, value, strategy)
    }

    /// Inserts `value` under `key`, replacing any previous value.
    pub fn insert(&mut self, key: K, value: V)
        requires
            old(self).wf(),
            old(self).spec_capacity() > 0,
            old(self).spec_len() < usize::MAX / 100,
            old(self).spec_capacity() <= usize::MAX / 8,
        ensures
            final(self).wf(),
            final(self)@ == old(self)@.insert(key.key_bytes(), value),
            final(self).spec_capacity() == if old(self).spec_len() * 100 / (old(self).spec_capacity() as int) > 70 {
                old(self).spec_capacity() * 8
            } else {
                old(self).spec_capacity() as int
            },
            final(self).spec_len() == final(self)@.len(),
    {
        let result = self.insert_with_strategy(key, value, InsertStrategy::Replace);
        match result {
            Ok(()) => {},
            Err(_) => {},
        }
    }

    /// The value stored under `key`, if any.
    pub fn lookup(&self, key: &K) -> (value: Option<&V>)
        requires
            self.wf(),
            self.spec_capacity() > 0,
        ensures
            self@.contains_key(key.key_bytes()) ==> (value matches Some(v) && *v == self@[key.key_bytes()]),
            !self@.contains_key(key.key_bytes()) ==> value is None,
    {
        match self.lookup_index(key) {
            Some(index) => {
                match &self.buckets[index] {
                    Some(entry) => Some(&entry.1),
                    None => None,
                }
            },
            None => None,
        }
    }

    /// Removes `key` and returns its value.
    pub fn remove(&mut self, key: &K) -> (result: Result<V, Error>)
        requires
            old(self).wf(),
            old(self).spec_capacity() > 0,
        ensures
            final(self).wf(),
            final(self).spec_capacity() == old(self).spec_capacity(),
            final(self).spec_len() == final(self)@.len(),
            old(self)@.contains_key(key.key_bytes()) ==> (result matches Ok(v) && v == old(self)@[key.key_bytes()]
                && final(self)@ == old(self)@.remove(key.key_bytes())),
            !old(self)@.contains_key(key.key_bytes()) ==> (result matches Err(Error::KeyNotFound))
                && final(self)@ == old(self)@,
    {
        match self.lookup_index(key) {
            Some(index) => {
                let ghost prev = *self;
                let ghost kb = key.key_bytes();
                let mut meta = Meta::new();
                meta.set_deleted();
                proof {
                    assert(prev.metadata_buckets@[index as int].valid());
                    lemma_count_update(self.metadata_buckets@, index as int, meta);
                }
                self.metadata_buckets[index] = meta;
                self.num_elements = self.num_elements - 1;
                let entry = self.buckets[index].take();
                self.contents = Ghost(self.contents@.remove(kb));
                proof {
                    let t = index as int;
                    assert(prev.contents@.contains_key(kb));
                    assert forall|j: int| 0 <= j < self.capacity && #[trigger] self.empty_at(j) implies prev.empty_at(j) by {
                        if j == t {
                            lemma_meta_exclusive(meta);
                        }
                    }
                    assert forall|j: int| 0 <= j < self.capacity implies (#[trigger] self.in_use(j) <==> self.buckets@[j] is Some) by {
                        if j != t {
                            assert(prev.in_use(j) <==> prev.buckets@[j] is Some);
                        } else {
                            lemma_meta_exclusive(meta);
                        }
                    }
                    assert forall|j: int| 0 <= j < self.capacity && #[trigger] self.in_use(j)
                        implies self.metadata_buckets@[j].hash == key_hash_spec(self.key_at(j)) && self.reachable(j) by {
                        assert(j != t) by {
                            lemma_meta_exclusive(meta);
                        }
                        assert(prev.in_use(j));
                        assert(prev.reachable(j));
                        Self::lemma_reach_transfer(&prev, self, key_hash_spec(prev.key_at(j)), j);
                    }
                    assert forall|i: int, j: int|
                        0 <= i < self.capacity && 0 <= j < self.capacity && #[trigger] self.in_use(i)
                            && #[trigger] self.in_use(j) && self.key_at(i) == self.key_at(j) implies i == j by {
                        lemma_meta_exclusive(meta);
                        assert(prev.in_use(i) && prev.in_use(j));
                    }
                    assert forall|j: int| 0 <= j < self.capacity && #[trigger] self.in_use(j)
                        implies self.contents@.contains_key(self.key_at(j)) && self.contents@[self.key_at(j)]
                        == self.value_at(j) by {
                        lemma_meta_exclusive(meta);
                        assert(prev.in_use(j));
                        assert(prev.in_use(t));
                        assert(prev.key_at(j) != kb);
                    }
                    assert forall|k: Seq<u8>| #[trigger] self.contents@.contains_key(k) implies exists|i: int|
                        0 <= i < self.capacity && #[trigger] self.in_use(i) && self.key_at(i) == k by {
                        assert(prev.contents@.contains_key(k));
                        let i = choose|i: int|
                            0 <= i < prev.capacity && #[trigger] prev.in_use(i) && prev.key_at(i) == k;
                        assert(i != t);
                        assert(self.in_use(i));
                    }
                    assert(self.wf());
                }
                match entry {
                    Some((_key, value)) => Ok(value),
                    None => Err(Error::KeyNotFound),
                }
            },
            None => Err(Error::KeyNotFound),
        }
    }
}


/// Distinct integer keys have distinct entries in the map.
pub proof fn law_distinct_u64_keys(a: u64, b: u64)
    requires
        a != b,
    ensures
        a.key_bytes() != b.key_bytes(),
{
    if a.key_bytes() == b.key_bytes() {
        lemma_u64_le_bytes_injective(a, b);
    }
}

/// Distinct string keys have distinct entries in the map.
pub proof fn law_distinct_string_keys(a: String, b: String)
    requires
        a@ != b@,
    ensures
        a.key_bytes() != b.key_bytes(),
{
    if a.key_bytes() == b.key_bytes() {
        let ea = encode_utf8(a@);
        let eb = encode_utf8(b@);
        assert(ea =~= a.key_bytes().drop_last());
        assert(eb =~= b.key_bytes().drop_last());
        vstd::utf8::encode_utf8_decode_utf8(a@);
        vstd::utf8::encode_utf8_decode_utf8(b@);
    }
}

/// Looking a key up right after inserting it gives the inserted value;
/// every other key keeps its value.
pub proof fn law_lookup_after_insert<V>(before: Map<Seq<u8>, V>, key: Seq<u8>, value: V, other: Seq<u8>)
    requires
        other != key,
    ensures
        before.insert(key, value).contains_key(key),
        before.insert(key, value)[key] == value,
        before.insert(key, value).contains_key(other) == before.contains_key(other),
        before.contains_key(other) ==> before.insert(key, value)[other] == before[other],
{
}

/// After a key is removed, looking it up finds nothing; every other key
/// keeps its value.
pub proof fn law_lookup_after_remove<V>(before: Map<Seq<u8>, V>, key: Seq<u8>, other: Seq<u8>)
    requires
        other != key,
    ensures
        !before.remove(key).contains_key(key),
        before.remove(key).contains_key(other) == before.contains_key(other),
        before.contains_key(other) ==> before.remove(key)[other] == before[other],
{
}

} // verus!
