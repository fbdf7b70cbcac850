//! Core data: payloads, headers, blocks, difficulty targets, chain configuration,
//! and the rules that hash them.

use vstd::prelude::*;
use crate::outside::{
    sha256, sha256_digest, encode_header_fields, scrypt_32, scrypt_digest, system_time_now,
    since_unix_epoch, duration_secs,
};

verus! {

/// A 32-byte SHA-256 digest.
pub type Hash = [u8; 32];

/// A miner's Ed25519 public key.
pub type Address = [u8; 32];

pub const MAX_PAYLOADS_PER_BLOCK: usize = 1024;
pub const TARGET_BLOCK_TIME_SECS: u64 = 120;
pub const BLOCKS_PER_YEAR: u64 = 262_800;
pub const DIFFICULTY_ADJUSTMENT_PERIOD: u64 = BLOCKS_PER_YEAR;
pub const DIFFICULTY_VOTE_WINDOW: u64 = 1_000;
pub const BLOCK_REWARD: u64 = 500_000_000;
pub const REWARD_DECIMALS: u32 = 9;
pub const MAX_SUPPLY: u64 = 21_000_000_000_000_000;
pub const SCRYPT_N: u64 = 32_768;
pub const SCRYPT_R: u32 = 8;
pub const SCRYPT_P: u32 = 1;
pub const SCRYPT_LEN: usize = 32;

/// log2 of `SCRYPT_N`, the form in which scrypt takes its cost parameter.
pub const SCRYPT_LOG_N: u8 = 15;

/// Exactly 256 bytes of timestamped data.
#[derive(Debug, Clone, Copy, PartialEq, Eq)]
pub struct Payload(pub [u8; 256]);

#[derive(Debug, Clone, Copy, PartialEq, Eq)]
pub struct BlockHeader {
    pub previous_hash: Hash,
    pub timestamp: u64,
    pub miner_address: Address,
    pub difficulty_vote: i8,
    pub payload_count: u32,
    pub merkle_root: Hash,
}

#[derive(Debug, Clone, PartialEq, Eq)]
pub struct Block {
    pub header: BlockHeader,
    pub nonce: u64,
    pub payloads: Vec<Payload>,
}

/// A block as a mathematical value.
#[verifier::ext_equal]
pub struct BlockView {
    pub header: BlockHeader,
    pub nonce: u64,
    pub payloads: Seq<Payload>,
}

impl View for Block {
    type V = BlockView;

    open spec fn view(&self) -> BlockView {
        BlockView { header: self.header, nonce: self.nonce, payloads: self.payloads@ }
    }
}

/// A block's proof-of-work hash must be at most `target`, compared as
/// 32-byte big-endian strings.
#[derive(Debug, Clone, Copy, PartialEq, Eq)]
pub struct Difficulty {
    pub target: Hash,
}

#[derive(Debug, Clone, Copy)]
pub struct ChainConfig {
    pub genesis_timestamp: u64,
    pub genesis_difficulty: Difficulty,
    pub genesis_payload: Payload,
}

// ---------------------------------------------------------------------------
// Byte-level specifications

/// The all-zero 32-byte string, which marks "no previous block".
pub open spec fn zero_hash() -> Seq<u8> {
    Seq::new(32, |i: int| 0u8)
}

/// The unsigned LEB128 varint encoding used by postcard for `u32`/`u64`:
/// seven bits per byte, least significant group first, high bit set on all
/// bytes but the last.
pub open spec fn varint(n: nat) -> Seq<u8>
    decreases n,
{
    if n < 128 {
        seq![n as u8]
    } else {
        seq![(n % 128 + 128) as u8] + varint(n / 128)
    }
}

/// The `k` little-endian bytes of `n` (the low `k` bytes).
pub open spec fn le_bytes(n: nat, k: nat) -> Seq<u8>
    decreases k,
{
    if k == 0 {
        Seq::empty()
    } else {
        seq![(n % 256) as u8] + le_bytes(n / 256, (k - 1) as nat)
    }
}

/// The postcard encoding of a header: the fields in declaration order,
/// arrays as raw bytes, integers as varints, the vote as its two's-complement byte.
pub open spec fn header_bytes(h: BlockHeader) -> Seq<u8> {
    h.previous_hash@ + varint(h.timestamp as nat) + h.miner_address@ + seq![h.difficulty_vote as u8]
        + varint(h.payload_count as nat) + h.merkle_root@
}

/// A block's identity: SHA-256 over the encoded header and the nonce's
/// eight little-endian bytes. Payloads do not enter it.
pub open spec fn block_hash(h: BlockHeader, nonce: u64) -> Seq<u8> {
    sha256_digest(header_bytes(h) + le_bytes(nonce as nat, 8))
}

/// The proof-of-work hash: scrypt with the block hash as password and salt.
pub open spec fn pow_hash_of(h: BlockHeader, nonce: u64) -> Seq<u8> {
    scrypt_digest(block_hash(h, nonce), block_hash(h, nonce), SCRYPT_LOG_N, SCRYPT_R, SCRYPT_P)
}

// ---------------------------------------------------------------------------
// Merkle tree specification

/// The leaf level: SHA-256 of each payload's bytes.
pub open spec fn leaf_hashes(ps: Seq<Payload>) -> Seq<Seq<u8>> {
    Seq::new(ps.len(), |i: int| sha256_digest(ps[i].0@))
}

/// Parent `i` of a level: the hash of children `2i` and `2i+1`, where an
/// odd last child is paired with itself.
pub open spec fn merkle_parent(hs: Seq<Seq<u8>>, i: int) -> Seq<u8> {
    let left = hs[2 * i];
    let right = if 2 * i + 1 < hs.len() { hs[2 * i + 1] } else { hs[2 * i] };
    sha256_digest(left + right)
}

pub open spec fn merkle_level(hs: Seq<Seq<u8>>) -> Seq<Seq<u8>> {
    Seq::new(((hs.len() + 1) / 2) as nat, |i: int| merkle_parent(hs, i))
}

pub open spec fn merkle_reduce(hs: Seq<Seq<u8>>) -> Seq<u8>
    decreases hs.len(),
{
    if hs.len() <= 1 {
        hs[0]
    } else {
        merkle_reduce(merkle_level(hs))
    }
}

/// The Merkle root of a payload list; the empty list has the all-zero root.
pub open spec fn merkle_root(ps: Seq<Payload>) -> Seq<u8> {
    if ps.len() == 0 {
        zero_hash()
    } else {
        merkle_reduce(leaf_hashes(ps))
    }
}

// ---------------------------------------------------------------------------
// Lexicographic order on byte strings (big-endian numeric order for equal lengths)

pub open spec fn same_prefix(a: Seq<u8>, b: Seq<u8>, k: int) -> bool {
    forall|j: int| 0 <= j < k ==> a[j] == b[j]
}

/// `a` is strictly before `b`: they agree up to some position where `a` is smaller.
pub open spec fn lex_lt(a: Seq<u8>, b: Seq<u8>) -> bool {
    exists|k: int| 0 <= k < a.len() && k < b.len() && #[trigger] same_prefix(a, b, k) && a[k] < b[k]
}

pub open spec fn lex_le(a: Seq<u8>, b: Seq<u8>) -> bool {
    a == b || lex_lt(a, b)
}

/// The genesis target: `00 00 0F FF` followed by 28 zero bytes.
pub open spec fn genesis_target() -> Seq<u8> {
    Seq::new(32, |i: int| if i == 2 { 0x0Fu8 } else if i == 3 { 0xFFu8 } else { 0u8 })
}

// ---------------------------------------------------------------------------
// Executable helpers

/// Equality of two 32-byte hashes.
pub fn hash_eq(a: &Hash, b: &Hash) -> (r: bool)
    ensures
        r == (a@ == b@),
{
    let mut i: usize = 0;
    while i < 32
        invariant
            i <= 32,
            forall|j: int| 0 <= j < i ==> a@[j] == b@[j],
        decreases 32 - i,
    {
        if a[i] != b[i] {
            return false;
        }
        i = i + 1;
    }
    assert(a@ =~= b@);
    true
}

/// Whether a hash is the all-zero hash.
pub fn is_zero_hash(a: &Hash) -> (r: bool)
    ensures
        r == (a@ == zero_hash()),
{
    let z: Hash = [0u8; 32];
    assert(z@ =~= zero_hash());
    hash_eq(a, &z)
}

/// The bytes of `a` followed by the bytes of `b`.
fn concat_hashes(a: &Hash, b: &Hash) -> (out: Vec<u8>)
    ensures
        out@ == a@ + b@,
{
    let mut out: Vec<u8> = Vec::with_capacity(64);
    let mut i: usize = 0;
    while i < 32
        invariant
            i <= 32,
            out@ == a@.take(i as int),
        decreases 32 - i,
    {
        out.push(a[i]);
        i = i + 1;
        assert(out@ =~= a@.take(i as int));
    }
    let mut j: usize = 0;
    while j < 32
        invariant
            j <= 32,
            out@ == a@ + b@.take(j as int),
        decreases 32 - j,
    {
        out.push(b[j]);
        j = j + 1;
        assert(out@ =~= a@ + b@.take(j as int));
    }
    assert(a@.take(32) =~= a@);
    assert(b@.take(32) =~= b@);
    out
}

/// The eight little-endian bytes of `n`.
fn u64_le_bytes(n: u64) -> (out: Vec<u8>)
    ensures
        out@ == le_bytes(n as nat, 8),
{
    let mut out: Vec<u8> = Vec::with_capacity(8);
    let mut v: u64 = n;
    let mut k: usize = 0;
    while k < 8
        invariant
            k <= 8,
            out@ + le_bytes(v as nat, (8 - k) as nat) == le_bytes(n as nat, 8),
        decreases 8 - k,
    {
        let ghost before = out@;
        assert(le_bytes(v as nat, (8 - k) as nat) == seq![(v % 256) as u8] + le_bytes(
            (v / 256) as nat,
            (8 - k - 1) as nat,
        ));
        out.push((v % 256) as u8);
        v = v / 256;
        k = k + 1;
        assert(out@ + le_bytes(v as nat, (8 - k) as nat) =~= before + (seq![(out@.last())]
            + le_bytes(v as nat, (8 - k) as nat)));
    }
    assert(le_bytes(v as nat, 0) =~= Seq::<u8>::empty());
    assert(out@ + Seq::<u8>::empty() =~= out@);
    out
}

/// The bytes of `v` followed by the bytes of `w`.
fn append_bytes(v: &mut Vec<u8>, w: &Vec<u8>)
    ensures
        final(v)@ == old(v)@ + w@,
{
    let mut i: usize = 0;
    let ghost start = v@;
    while i < w.len()
        invariant
            i <= w.len(),
            v@ == start + w@.take(i as int),
        decreases w.len() - i,
    {
        v.push(w[i]);
        i = i + 1;
        assert(v@ =~= start + w@.take(i as int));
    }
    assert(w@.take(w.len() as int) =~= w@);
}

/// The current Unix time in whole seconds; a clock set before the epoch
/// reads as 0.
pub(crate) fn unix_time_secs() -> (now: u64) {
    match since_unix_epoch(&system_time_now()) {
        Ok(d) => duration_secs(&d),
        Err(_) => 0,
    }
}

impl Payload {
    /// The payload's 256 bytes.
    pub fn bytes(&self) -> (out: &[u8])
        ensures
            out@ == self.0@,
    {
        self.0.as_slice()
    }
}

impl BlockHeader {
    /// The postcard encoding of this header.
    pub fn encode(&self) -> (out: Vec<u8>)
        ensures
            out@ == header_bytes(*self),
    {
        encode_header_fields(
            self.previous_hash,
            self.timestamp,
            self.miner_address,
            self.difficulty_vote,
            self.payload_count,
            self.merkle_root,
        )
    }
}

impl Block {
    /// A copy of this block with the same header, nonce and payloads.
    pub fn duplicate(&self) -> (out: Block)
        ensures
            out@ == self@,
    {
        let mut ps: Vec<Payload> = Vec::with_capacity(self.payloads.len());
        let mut i: usize = 0;
        while i < self.payloads.len()
            invariant
                i <= self.payloads.len(),
                ps@ == self.payloads@.take(i as int),
            decreases self.payloads.len() - i,
        {
            ps.push(self.payloads[i]);
            i = i + 1;
            assert(ps@ =~= self.payloads@.take(i as int));
        }
        assert(self.payloads@.take(self.payloads.len() as int) =~= self.payloads@);
        Block { header: self.header, nonce: self.nonce, payloads: ps }
    }

    /// SHA-256 over the postcard-encoded header followed by the nonce's
    /// little-endian bytes.
    pub fn hash(&self) -> (out: Hash)
        ensures
            out@ == block_hash(self.header, self.nonce),
    {
        let mut bytes = self.header.encode();
        let nonce_bytes = u64_le_bytes(self.nonce);
        append_bytes(&mut bytes, &nonce_bytes);
        sha256(bytes.as_slice())
    }

    /// Scrypt (N = 32768, r = 8, p = 1, 32 bytes) of the block hash, with the
    /// block hash as both password and salt.
    pub fn pow_hash(&self) -> (out: Hash)
        ensures
            out@ == pow_hash_of(self.header, self.nonce),
    {
        let block_hash = self.hash();
        scrypt_32(block_hash.as_slice(), block_hash.as_slice(), SCRYPT_LOG_N, SCRYPT_R, SCRYPT_P)
    }

    /// The header's payload count matches the payload list, which holds at
    /// most `MAX_PAYLOADS_PER_BLOCK` payloads.
    pub fn verify_payload_count(&self) -> (r: bool)
        ensures
            r == (self.header.payload_count == self.payloads@.len()
                && self.payloads@.len() <= MAX_PAYLOADS_PER_BLOCK),
    {
        self.header.payload_count as usize == self.payloads.len() && self.payloads.len()
            <= MAX_PAYLOADS_PER_BLOCK
    }

    /// The Merkle root of `payloads`: leaves are SHA-256 of each payload,
    /// each level hashes adjacent pairs (an odd last node is paired with
    /// itself), and the empty list has the all-zero root.
    pub fn compute_merkle_root(payloads: &[Payload]) -> (out: Hash)
        ensures
            out@ == merkle_root(payloads@),
    {
        if payloads.len() == 0 {
            let z: Hash = [0u8; 32];
            assert(z@ =~= zero_hash());
            return z;
        }
        let mut hashes: Vec<Hash> = Vec::with_capacity(payloads.len());
        let mut i: usize = 0;
        while i < payloads.len()
            invariant
                i <= payloads.len(),
                hashes@.len() == i,
                forall|j: int| 0 <= j < i ==> #[trigger] hashes@[j]@ == sha256_digest(payloads@[j].0@),
            decreases payloads.len() - i,
        {
            let h = sha256(payloads[i].bytes());
            hashes.push(h);
            i = i + 1;
        }
        assert(hash_views(hashes@) =~= leaf_hashes(payloads@));
        while hashes.len() > 1
            invariant
                hashes@.len() >= 1,
                merkle_reduce(hash_views(hashes@)) == merkle_reduce(leaf_hashes(payloads@)),
            decreases hashes.len(),
        {
            let next = Self::merkle_next_level(&hashes);
            hashes = next;
        }
        hashes[0]
    }

    /// One level up the Merkle tree.
    fn merkle_next_level(hashes: &Vec<Hash>) -> (out: Vec<Hash>)
        requires
            hashes@.len() > 1,
        ensures
            hash_views(out@) == merkle_level(hash_views(hashes@)),
            out@.len() >= 1,
            out@.len() < hashes@.len(),
            merkle_reduce(hash_views(out@)) == merkle_reduce(hash_views(hashes@)),
    {
        let ghost hv = hash_views(hashes@);
        let n = hashes.len();
        let half = n / 2 + n % 2;
        let mut next: Vec<Hash> = Vec::with_capacity(half);
        let mut k: usize = 0;
        while k < half
            invariant
                n == hashes@.len(),
                half == (n + 1) / 2,
                hv == hash_views(hashes@),
                k <= half,
                next@.len() == k,
                forall|j: int| 0 <= j < k ==> #[trigger] next@[j]@ == merkle_parent(hv, j),
            decreases half - k,
        {
            let left = &hashes[2 * k];
            let right = if 2 * k + 1 < n { &hashes[2 * k + 1] } else { &hashes[2 * k] };
            let pair = concat_hashes(left, right);
            let h = sha256(pair.as_slice());
            next.push(h);
            k = k + 1;
        }
        assert(hash_views(next@) =~= merkle_level(hv));
        next
    }

    /// The header's Merkle root is the root of the payload list.
    pub fn verify_merkle_root(&self) -> (r: bool)
        ensures
            r == (self.header.merkle_root@ == merkle_root(self.payloads@)),
    {
        let root = Self::compute_merkle_root(self.payloads.as_slice());
        hash_eq(&self.header.merkle_root, &root)
    }
}

/// The byte strings held by a list of hashes.
pub open spec fn hash_views(hs: Seq<Hash>) -> Seq<Seq<u8>> {
    Seq::new(hs.len(), |i: int| hs[i]@)
}

impl Difficulty {
    pub fn new(target: Hash) -> (d: Difficulty)
        ensures
            d.target == target,
    {
        Difficulty { target }
    }

    /// The genesis difficulty, target `00 00 0F FF 00 .. 00`.
    pub fn genesis() -> (d: Difficulty)
        ensures
            d.target@ == genesis_target(),
    {
        let mut target: Hash = [0u8; 32];
        target[0] = 0x00;
        target[1] = 0x00;
        target[2] = 0x0F;
        target[3] = 0xFF;
        assert(target@ =~= genesis_target());
        Self::new(target)
    }

    /// `hash` meets this difficulty: it is at most the target, byte-wise
    /// from the most significant byte.
    pub fn satisfies(&self, hash: &Hash) -> (r: bool)
        ensures
            r == lex_le(hash@, self.target@),
    {
        let mut i: usize = 0;
        while i < 32
            invariant
                i <= 32,
                same_prefix(hash@, self.target@, i as int),
            decreases 32 - i,
        {
            if hash[i] < self.target[i] {
                assert(same_prefix(hash@, self.target@, i as int));
                return true;
            }
            if hash[i] > self.target[i] {
                assert(hash@ != self.target@);
                assert forall|k: int|
                    0 <= k < 32 && #[trigger] same_prefix(hash@, self.target@, k) implies !(hash@[k]
                    < self.target@[k]) by {
                    if k > i {
                        assert(hash@[i as int] == self.target@[i as int]);
                    }
                }
                return false;
            }
            i = i + 1;
        }
        assert(hash@ =~= self.target@);
        true
    }
}

impl ChainConfig {
    /// The main network: genesis at Unix time 1 700 000 000, the genesis
    /// difficulty, and an all-zero genesis payload.
    pub fn mainnet() -> (c: ChainConfig)
        ensures
            c.genesis_timestamp == 1_700_000_000,
            c.genesis_difficulty.target@ == genesis_target(),
            c.genesis_payload.0@ == Seq::new(256, |i: int| 0u8),
    {
        let p = Payload([0u8; 256]);
        assert(p.0@ =~= Seq::new(256, |i: int| 0u8));
        ChainConfig {
            genesis_timestamp: 1_700_000_000,
            genesis_difficulty: Difficulty::genesis(),
            genesis_payload: p,
        }
    }
}

impl Default for ChainConfig {
    fn default() -> (c: ChainConfig)
        ensures
            c.genesis_timestamp == 1_700_000_000,
            c.genesis_difficulty.target@ == genesis_target(),
            c.genesis_payload.0@ == Seq::new(256, |i: int| 0u8),
    {
        Self::mainnet()
    }
}


/// The order in which hashes are held against targets is transitive: a
/// hash that meets a target meets every higher target too.
pub proof fn lemma_lex_le_trans(a: Seq<u8>, b: Seq<u8>, c: Seq<u8>)
    requires
        a.len() == b.len(),
        b.len() == c.len(),
        lex_le(a, b),
        lex_le(b, c),
    ensures
        lex_le(a, c),
{
    if a != b && b != c {
        let k1 = choose|k: int| 0 <= k < a.len() && k < b.len() && #[trigger] same_prefix(a, b, k) && a[k] < b[k];
        let k2 = choose|k: int| 0 <= k < b.len() && k < c.len() && #[trigger] same_prefix(b, c, k) && b[k] < c[k];
        let k = if k1 < k2 { k1 } else { k2 };
        assert forall|j: int| 0 <= j < k implies a[j] == c[j] by {
            assert(a[j] == b[j]);
            assert(b[j] == c[j]);
        }
        assert(same_prefix(a, c, k));
        assert(a[k] < c[k]);
    }
}

} // verus!
