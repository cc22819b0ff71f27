//! The hashing pipeline's core: a streaming digest over one of the
//! two supported algorithms, fed chunk by chunk, and the fold of the
//! resulting entries into an index. Reading file bytes and metadata
//! is the caller's concern; everything after the bytes arrive is
//! verified against the digest names below.

use crate::digits::{hex32, is_lower_hex, lemma_hex32_lower, u128_to_hex32};
use crate::entry::{entries_map, Entry, Index};
use vstd::prelude::*;

verus! {

/// The selectable hash algorithm: a cryptographic-strength option and
/// a fast non-cryptographic option.
#[derive(Clone, Copy, Debug, PartialEq, Eq, Structural)]
pub enum Algo {
    Blake3,
    Xxh3,
}

#[verifier::external_type_specification]
#[verifier::external_body]
pub struct ExBlake3Hasher(blake3::Hasher);

#[verifier::external_type_specification]
#[verifier::external_body]
pub struct ExXxh3(xxhash_rust::xxh3::Xxh3);

/// The bytes a BLAKE3 hasher has been fed so far.
pub uninterp spec fn blake3_fed(h: blake3::Hasher) -> Seq<u8>;

/// The 64-character lowercase hex BLAKE3 digest of an input; a
/// function of the input bytes alone.
pub uninterp spec fn blake3_hex(input: Seq<u8>) -> Seq<char>;

/// The bytes an XXH3 hasher has been fed so far.
pub uninterp spec fn xxh3_fed(h: xxhash_rust::xxh3::Xxh3) -> Seq<u8>;

/// The 128-bit XXH3 digest of an input; a function of the input
/// bytes alone.
pub uninterp spec fn xxh3_128(input: Seq<u8>) -> u128;

/// Relies on blake3::Hasher::new: a fresh hasher has hashed nothing.
#[verifier::external_body]
fn blake3_new() -> (h: blake3::Hasher)
    ensures
        blake3_fed(h) == Seq::<u8>::empty(),
{
    blake3::Hasher::new()
}

/// Relies on blake3::Hasher::update: appends the chunk to the hashed
/// stream.
#[verifier::external_body]
fn blake3_update(h: &mut blake3::Hasher, chunk: &[u8])
    ensures
        blake3_fed(*final(h)) == blake3_fed(*old(h)) + chunk@,
{
    h.update(chunk);
}

/// Relies on blake3::Hasher::finalize and blake3::Hash::to_hex: the
/// digest of the bytes fed so far, as 64 lowercase hex characters.
#[verifier::external_body]
fn blake3_finalize_hex(h: &blake3::Hasher) -> (r: String)
    ensures
        r@ == blake3_hex(blake3_fed(*h)),
        r@.len() == 64,
        forall|i: int| 0 <= i < r@.len() ==> is_lower_hex(#[trigger] r@[i]),
{
    h.finalize().to_hex().as_str().to_owned()
}

/// Relies on xxhash_rust::xxh3::Xxh3::new: a fresh hasher has hashed
/// nothing.
#[verifier::external_body]
fn xxh3_new() -> (h: xxhash_rust::xxh3::Xxh3)
    ensures
        xxh3_fed(h) == Seq::<u8>::empty(),
{
    xxhash_rust::xxh3::Xxh3::new()
}

/// Relies on xxhash_rust::xxh3::Xxh3::update: appends the chunk to
/// the hashed stream.
#[verifier::external_body]
fn xxh3_update(h: &mut xxhash_rust::xxh3::Xxh3, chunk: &[u8])
    ensures
        xxh3_fed(*final(h)) == xxh3_fed(*old(h)) + chunk@,
{
    h.update(chunk);
}

/// Relies on xxhash_rust::xxh3::Xxh3::digest128: the 128-bit digest
/// of the bytes fed so far.
#[verifier::external_body]
fn xxh3_digest128(h: &xxhash_rust::xxh3::Xxh3) -> (r: u128)
    ensures
        r == xxh3_128(xxh3_fed(*h)),
{
    h.digest128()
}

enum HasherState {
    B3(blake3::Hasher),
    X3(xxhash_rust::xxh3::Xxh3),
}

/// How many hex characters the configured algorithm's digest has.
pub open spec fn digest_len(algo: Algo) -> int {
    match algo {
        Algo::Blake3 => 64,
        Algo::Xxh3 => 32,
    }
}

/// The hex digest the configured algorithm gives an input.
pub open spec fn digest_hex(algo: Algo, input: Seq<u8>) -> Seq<char> {
    match algo {
        Algo::Blake3 => blake3_hex(input),
        Algo::Xxh3 => hex32(xxh3_128(input)),
    }
}

/// A streaming content hash: bytes go in chunk by chunk, a fixed-width
/// lowercase hex digest comes out, a function of those bytes alone.
pub struct HashStream {
    state: HasherState,
}

impl HashStream {
    pub closed spec fn algo(self) -> Algo {
        match self.state {
            HasherState::B3(_) => Algo::Blake3,
            HasherState::X3(_) => Algo::Xxh3,
        }
    }

    /// The bytes fed so far.
    pub closed spec fn fed(self) -> Seq<u8> {
        match self.state {
            HasherState::B3(h) => blake3_fed(h),
            HasherState::X3(h) => xxh3_fed(h),
        }
    }

    pub fn new(algo: Algo) -> (r: HashStream)
        ensures
            r.algo() == algo,
            r.fed() == Seq::<u8>::empty(),
    {
        match algo {
            Algo::Blake3 => HashStream { state: HasherState::B3(blake3_new()) },
            Algo::Xxh3 => HashStream { state: HasherState::X3(xxh3_new()) },
        }
    }

    /// Feeds one chunk.
    pub fn update(self, chunk: &[u8]) -> (r: HashStream)
        ensures
            r.algo() == self.algo(),
            r.fed() == self.fed() + chunk@,
    {
        match self.state {
            HasherState::B3(mut h) => {
                blake3_update(&mut h, chunk);
                HashStream { state: HasherState::B3(h) }
            },
            HasherState::X3(mut h) => {
                xxh3_update(&mut h, chunk);
                HashStream { state: HasherState::X3(h) }
            },
        }
    }

    /// The digest of everything fed so far: fixed-width lowercase hex.
    pub fn finalize(&self) -> (r: String)
        ensures
            r@ == digest_hex(self.algo(), self.fed()),
            r@.len() == digest_len(self.algo()),
            forall|i: int| 0 <= i < r@.len() ==> is_lower_hex(#[trigger] r@[i]),
    {
        match &self.state {
            HasherState::B3(h) => blake3_finalize_hex(h),
            HasherState::X3(h) => {
                let d = xxh3_digest128(h);
                let r = u128_to_hex32(d);
                proof {
                    assert(r@.len() == 32);
                    lemma_hex32_lower(d);
                }
                r
            },
        }
    }
}

/// Hashes one complete byte string.
pub fn hash_bytes(algo: Algo, data: &[u8]) -> (r: String)
    ensures
        r@ == digest_hex(algo, data@),
        r@.len() == digest_len(algo),
        forall|i: int| 0 <= i < r@.len() ==> is_lower_hex(#[trigger] r@[i]),
{
    let stream = HashStream::new(algo);
    let stream = stream.update(data);
    proof {
        assert(stream.fed() =~= data@);
    }
    stream.finalize()
}

/// The timestamp an entry records: creation time if the filesystem
/// exposes it, else modification time, else zero.
pub fn timestamp_from(created: Option<u64>, modified: Option<u64>) -> (r: u64)
    ensures
        r == (match created {
            Option::Some(c) => c,
            Option::None => match modified {
                Option::Some(m) => m,
                Option::None => 0u64,
            },
        }),
{
    match created {
        Some(c) => c,
        None => match modified {
            Some(m) => m,
            None => 0,
        },
    }
}

/// Folds freshly hashed entries into an index: a sorted mapping, the
/// last entry winning for a repeated path, independent of the order
/// the workers delivered them in.
pub fn build_index(entries: &Vec<Entry>) -> (r: Index)
    ensures
        r.wf(),
        r.as_map() == entries_map(entries@.map_values(|e: Entry| e@)),
{
    let ghost evs = entries@.map_values(|e: Entry| e@);
    let n = entries.len();
    let mut r = Index::new();
    let mut i: usize = 0;
    while i < n
        invariant
            i <= n == entries@.len(),
            evs == entries@.map_values(|e: Entry| e@),
            r.wf(),
            r.as_map() == entries_map(evs.take(i as int)),
        decreases n - i,
    {
        proof {
            assert(evs.take(i as int + 1).drop_last() =~= evs.take(i as int));
            assert(evs.take(i as int + 1).last() == entries@[i as int]@);
        }
        let e = entries[i].duplicate();
        r.insert(e);
        i = i + 1;
    }
    proof {
        assert(evs.take(n as int) =~= evs);
    }
    r
}

} // verus!
