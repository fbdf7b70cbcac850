//! The block store: an index from block hash to height and block, the chain
//! tip, pruning of old payloads, and the byte formats of the store's files
//! (the tip record and the length-prefixed block records).

use vstd::prelude::*;
use crate::types;
use crate::types::{Block, BlockHeader, Payload, BlockView, block_hash, hash_eq, le_bytes, zero_hash};
use crate::outside::{decode_index, encode_index, index_entries, index_encoding};

verus! {

/// Blocks this far below the tip keep their payloads when the store is pruned.
pub const PRUNE_DEPTH: u64 = 1_000;

/// One stored block with its hash and height.
pub struct StoredBlock {
    hash: types::Hash,
    height: u64,
    block: Block,
}

/// An index entry as a mathematical value.
#[verifier::ext_equal]
pub struct EntryView {
    pub hash: Seq<u8>,
    pub height: u64,
    pub block: BlockView,
}

/// The store as a mathematical value: its entries in insertion order and its tip.
#[verifier::ext_equal]
pub struct StorageView {
    pub entries: Seq<EntryView>,
    pub tip_hash: Seq<u8>,
    pub tip_height: u64,
}

pub struct BlockStorage {
    entries: Vec<StoredBlock>,
    tip_hash: types::Hash,
    tip_height: u64,
}

impl View for StoredBlock {
    type V = EntryView;

    closed spec fn view(&self) -> EntryView {
        EntryView { hash: self.hash@, height: self.height, block: self.block@ }
    }
}

pub open spec fn entry_views(es: Seq<StoredBlock>) -> Seq<EntryView> {
    Seq::new(es.len(), |i: int| es[i]@)
}

impl View for BlockStorage {
    type V = StorageView;

    closed spec fn view(&self) -> StorageView {
        StorageView { entries: entry_views(self.entries@), tip_hash: self.tip_hash@, tip_height: self.tip_height }
    }
}

impl StorageView {
    /// Hashes are unique and each is the hash of its block.
    pub open spec fn wf(self) -> bool {
        &&& forall|i: int, j: int|
            0 <= i < self.entries.len() && 0 <= j < self.entries.len() && i != j
                ==> #[trigger] self.entries[i].hash != #[trigger] self.entries[j].hash
        &&& forall|i: int|
            0 <= i < self.entries.len() ==> #[trigger] self.entries[i].hash == block_hash(
                self.entries[i].block.header,
                self.entries[i].block.nonce,
            )
    }

    pub open spec fn has(self, h: Seq<u8>) -> bool {
        exists|k: int| 0 <= k < self.entries.len() && #[trigger] self.entries[k].hash == h
    }

    pub open spec fn index_of(self, h: Seq<u8>) -> int {
        choose|k: int| 0 <= k < self.entries.len() && #[trigger] self.entries[k].hash == h
    }

    pub open spec fn height_of(self, h: Seq<u8>) -> Option<u64> {
        if self.has(h) {
            Some(self.entries[self.index_of(h)].height)
        } else {
            None
        }
    }

    pub open spec fn block_of(self, h: Seq<u8>) -> Option<BlockView> {
        if self.has(h) {
            Some(self.entries[self.index_of(h)].block)
        } else {
            None
        }
    }

    /// Entry `k` is the first (in insertion order) at `height`.
    pub open spec fn first_at(self, height: u64, k: int) -> bool {
        &&& 0 <= k < self.entries.len()
        &&& self.entries[k].height == height
        &&& forall|j: int| 0 <= j < k ==> #[trigger] self.entries[j].height != height
    }

    /// The block of the first entry at `height`, if any.
    pub open spec fn block_at_height(self, height: u64) -> Option<BlockView> {
        if exists|k: int| #[trigger] self.first_at(height, k) {
            Some(self.entries[choose|k: int| #[trigger] self.first_at(height, k)].block)
        } else {
            None
        }
    }

    /// Every block above height 0 has a stored parent at a lower height;
    /// blocks at height 0 have the all-zero parent. The chain state keeps
    /// this; the consensus walks over parents rely on it to end.
    pub open spec fn linked(self) -> bool {
        forall|k: int|
            0 <= k < self.entries.len() ==> {
                let e = #[trigger] self.entries[k];
                let p = e.block.header.previous_hash@;
                &&& e.height == 0 ==> p == zero_hash()
                &&& e.height > 0 ==> p != zero_hash() && self.has(p) && self.height_of(p).unwrap()
                    < e.height
            }
    }
}

impl StorageView {
    /// Every height is below the number of entries, as when each block is
    /// stored one above its parent.
    pub open spec fn heights_bounded(self) -> bool {
        forall|k: int| 0 <= k < self.entries.len() ==> #[trigger] self.entries[k].height < self.entries.len()
    }

    /// Everything stored in `self` is still stored in `later` under the same
    /// hash, at the same height, with the same header and nonce, and with
    /// its payloads either kept or pruned away below a block stored at least
    /// `PRUNE_DEPTH` higher.
    #[verifier::opaque]
    pub open spec fn kept_in(self, later: StorageView) -> bool {
        forall|k: int|
            0 <= k < self.entries.len() ==> {
                let e = #[trigger] self.entries[k];
                &&& later.has(e.hash)
                &&& later.height_of(e.hash) == Some(e.height)
                &&& later.block_of(e.hash).unwrap().header == e.block.header
                &&& later.block_of(e.hash).unwrap().nonce == e.block.nonce
                &&& payloads_kept(later, e.height, e.block.payloads, later.block_of(e.hash).unwrap().payloads)
            }
    }
}

/// Some block of `s` is stored at height `x` or above.
pub open spec fn reaches_height(s: StorageView, x: int) -> bool {
    exists|j: int| 0 <= j < s.entries.len() && #[trigger] s.entries[j].height >= x
}

/// A block at `height` that held payloads `before` holds `after` in `later`:
/// the same payloads, or none once `later` stores a block at least
/// `PRUNE_DEPTH` higher.
pub open spec fn payloads_kept(later: StorageView, height: u64, before: Seq<Payload>, after: Seq<Payload>) -> bool {
    after == before || (after.len() == 0 && reaches_height(later, height + PRUNE_DEPTH))
}

/// Entry `k` is linked to its parent and its height is below the number of entries.
pub open spec fn shaped_at(s: StorageView, k: int) -> bool {
    let e = s.entries[k];
    let p = e.block.header.previous_hash@;
    &&& e.height < s.entries.len()
    &&& e.height == 0 ==> p == zero_hash()
    &&& e.height > 0 ==> p != zero_hash() && s.has(p) && s.height_of(p).unwrap() < e.height
}

/// `height` has some entry in `s`.
pub open spec fn some_at_height(s: StorageView, height: u64) -> bool {
    exists|k: int| 0 <= k < s.entries.len() && #[trigger] s.entries[k].height == height
}

/// Under `wf`, the chosen index of a stored hash is the position holding it.
pub proof fn lemma_index_of(s: StorageView, h: Seq<u8>, i: int)
    requires
        s.wf(),
        0 <= i < s.entries.len(),
        s.entries[i].hash == h,
    ensures
        s.has(h),
        s.index_of(h) == i,
{
    assert(s.has(h));
    let k = s.index_of(h);
    if k != i {
        assert(s.entries[k].hash != s.entries[i].hash);
    }
}

/// The first entry at a height is unique, and one exists iff some entry has that height.
pub proof fn lemma_first_at(s: StorageView, height: u64)
    ensures
        (exists|k: int| #[trigger] s.first_at(height, k)) <==> some_at_height(s, height),
        forall|k1: int, k2: int|
            #[trigger] s.first_at(height, k1) && #[trigger] s.first_at(height, k2) ==> k1 == k2,
{
    assert forall|k1: int, k2: int|
        #[trigger] s.first_at(height, k1) && #[trigger] s.first_at(height, k2) implies k1 == k2 by {
        if k1 < k2 {
            assert(s.entries[k1].height != height);
        } else if k2 < k1 {
            assert(s.entries[k2].height != height);
        }
    }
    if some_at_height(s, height) {
        let k0 = choose|k: int| 0 <= k < s.entries.len() && #[trigger] s.entries[k].height == height;
        lemma_first_exists(s, height, k0);
    }
}

proof fn lemma_first_exists(s: StorageView, height: u64, k0: int)
    requires
        0 <= k0 < s.entries.len(),
        s.entries[k0].height == height,
    ensures
        exists|k: int| #[trigger] s.first_at(height, k),
    decreases k0,
{
    if forall|j: int| 0 <= j < k0 ==> #[trigger] s.entries[j].height != height {
        assert(s.first_at(height, k0));
    } else {
        let j = choose|j: int| 0 <= j < k0 && #[trigger] s.entries[j].height == height;
        lemma_first_exists(s, height, j);
    }
}

/// The little-endian value of a byte string.
pub open spec fn le_value(s: Seq<u8>) -> nat
    decreases s.len(),
{
    if s.len() == 0 {
        0
    } else {
        (s[0] as nat) + 256 * le_value(s.drop_first())
    }
}

/// Reading back `k` little-endian bytes of `n` gives `n` modulo `256^k`.
pub proof fn lemma_le_roundtrip(n: nat, k: nat)
    ensures
        le_value(le_bytes(n, k)) == (n as int) % vstd::arithmetic::power::pow(256, k),
        le_bytes(n, k).len() == k,
    decreases k,
{
    vstd::arithmetic::power::lemma_pow_positive(256, k);
    if k == 0 {
        assert(vstd::arithmetic::power::pow(256, 0) == 1) by {
            vstd::arithmetic::power::lemma_pow0(256);
        }
        assert(le_bytes(n, 0) =~= Seq::<u8>::empty());
    } else {
        let km1 = (k - 1) as nat;
        lemma_le_roundtrip(n / 256, km1);
        let b = le_bytes(n, k);
        assert(b.drop_first() =~= le_bytes(n / 256, km1));
        vstd::arithmetic::power::lemma_pow_positive(256, km1);
        assert(vstd::arithmetic::power::pow(256, k) == 256 * vstd::arithmetic::power::pow(256, km1))
            by {
            vstd::arithmetic::power::lemma_pow_adds(256, 1, km1);
            vstd::arithmetic::power::lemma_pow1(256);
        }
        vstd::arithmetic::div_mod::lemma_mod_breakdown(
            n as int,
            256,
            vstd::arithmetic::power::pow(256, km1) as int,
        );
    }
}

/// A little-endian value of `n` bytes is below `256^n`.
pub proof fn lemma_le_value_bound(s: Seq<u8>)
    ensures
        le_value(s) < vstd::arithmetic::power::pow(256, s.len()),
    decreases s.len(),
{
    if s.len() == 0 {
        vstd::arithmetic::power::lemma_pow0(256);
    } else {
        lemma_le_value_bound(s.drop_first());
        let m = vstd::arithmetic::power::pow(256, (s.len() - 1) as nat);
        vstd::arithmetic::power::lemma_pow_adds(256, 1, (s.len() - 1) as nat);
        vstd::arithmetic::power::lemma_pow1(256);
        let a = s[0] as int;
        let r = le_value(s.drop_first()) as int;
        assert(a + 256 * r < 256 * m) by (nonlinear_arith)
            requires
                0 <= a < 256,
                0 <= r < m,
        ;
    }
}

pub proof fn lemma_pow256_8()
    ensures
        vstd::arithmetic::power::pow(256, 8) == 0x1_0000_0000_0000_0000,
{
    reveal_with_fuel(vstd::arithmetic::power::pow, 9);
}

impl BlockStorage {
    /// An empty store: no blocks, tip at the all-zero hash, height 0.
    pub fn new() -> (s: BlockStorage)
        ensures
            s@.wf(),
            s@.linked(),
            s@.entries.len() == 0,
            s@.tip_hash == zero_hash(),
            s@.tip_height == 0,
    {
        let s = BlockStorage { entries: Vec::new(), tip_hash: [0u8; 32], tip_height: 0 };
        assert(s@.entries =~= Seq::<EntryView>::empty());
        assert(s@.tip_hash =~= zero_hash());
        s
    }

    /// The number of stored blocks.
    pub fn len(&self) -> (n: usize)
        ensures
            n == self@.entries.len(),
    {
        self.entries.len()
    }

    /// Whether the store has the shape the chain state keeps: `linked`, with
    /// every height below the number of stored blocks.
    pub fn is_chain_shaped(&self) -> (r: bool)
        requires
            self@.wf(),
        ensures
            r == (self@.linked() && self@.heights_bounded()),
    {
        let n = self.entries.len();
        let mut i: usize = 0;
        while i < n
            invariant
                n == self@.entries.len(),
                i <= n,
                self@.wf(),
                forall|k: int| 0 <= k < i ==> #[trigger] shaped_at(self@, k),
            decreases n - i,
        {
            let e = &self.entries[i];
            let ghost ev = self@.entries[i as int];
            assert(ev.height == e.height && ev.block.header == e.block.header);
            if e.height as u128 >= n as u128 {
                assert(!self@.heights_bounded());
                return false;
            }
            let prev = &e.block.header.previous_hash;
            if e.height == 0 {
                if !types::is_zero_hash(prev) {
                    assert(!self@.linked());
                    return false;
                }
            } else {
                if types::is_zero_hash(prev) {
                    assert(!self@.linked());
                    return false;
                }
                match self.height_of(prev) {
                    None => {
                        assert(!self@.linked());
                        return false;
                    },
                    Some(ph) => {
                        if ph >= e.height {
                            assert(!self@.linked());
                            return false;
                        }
                    },
                }
            }
            assert(shaped_at(self@, i as int));
            i = i + 1;
        }
        assert forall|k: int| 0 <= k < n implies #[trigger] self@.entries[k].height < n by {
            assert(shaped_at(self@, k));
        }
        assert forall|k: int| 0 <= k < n implies {
            let e = #[trigger] self@.entries[k];
            let p = e.block.header.previous_hash@;
            &&& e.height == 0 ==> p == zero_hash()
            &&& e.height > 0 ==> p != zero_hash() && self@.has(p) && self@.height_of(p).unwrap() < e.height
        } by {
            assert(shaped_at(self@, k));
        }
        true
    }

    /// The tip's hash and height.
    pub fn tip(&self) -> (r: (types::Hash, u64))
        ensures
            r.0@ == self@.tip_hash,
            r.1 == self@.tip_height,
    {
        (self.tip_hash, self.tip_height)
    }

    /// The position of the entry holding `hash`.
    fn find_index(&self, hash: &types::Hash) -> (r: Option<usize>)
        requires
            self@.wf(),
        ensures
            r matches Some(i) ==> i < self@.entries.len() && self@.entries[i as int].hash == hash@
                && self@.index_of(hash@) == i,
            r is None ==> !self@.has(hash@),
    {
        let mut i: usize = 0;
        while i < self.entries.len()
            invariant
                self@.wf(),
                i <= self.entries@.len(),
                forall|j: int| 0 <= j < i ==> #[trigger] self@.entries[j].hash != hash@,
            decreases self.entries.len() - i,
        {
            if hash_eq(&self.entries[i].hash, hash) {
                proof {
                    lemma_index_of(self@, hash@, i as int);
                }
                return Some(i);
            }
            i = i + 1;
        }
        None
    }

    /// The stored block with this hash.
    pub fn get_block(&self, hash: &types::Hash) -> (r: Option<Block>)
        requires
            self@.wf(),
        ensures
            r matches Some(b) ==> self@.block_of(hash@) == Some(b@),
            r is None ==> self@.block_of(hash@) is None,
    {
        match self.find_index(hash) {
            Some(i) => Some(self.entries[i].block.duplicate()),
            None => None,
        }
    }

    /// The header of the stored block with this hash.
    pub fn get_header(&self, hash: &types::Hash) -> (r: Option<BlockHeader>)
        requires
            self@.wf(),
        ensures
            r matches Some(h) ==> self@.has(hash@) && self@.block_of(hash@).unwrap().header == h,
            r is None ==> !self@.has(hash@),
    {
        match self.find_index(hash) {
            Some(i) => Some(self.entries[i].block.header),
            None => None,
        }
    }

    /// The block of the first entry stored at `height`.
    pub fn get_block_by_height(&self, height: u64) -> (r: Option<Block>)
        requires
            self@.wf(),
        ensures
            r matches Some(b) ==> self@.block_at_height(height) == Some(b@),
            r is None ==> self@.block_at_height(height) is None,
            r is Some <==> some_at_height(self@, height),
    {
        proof {
            lemma_first_at(self@, height);
        }
        let mut i: usize = 0;
        while i < self.entries.len()
            invariant
                i <= self.entries@.len(),
                forall|j: int| 0 <= j < i ==> #[trigger] self@.entries[j].height != height,
            decreases self.entries.len() - i,
        {
            if self.entries[i].height == height {
                assert(self@.first_at(height, i as int));
                return Some(self.entries[i].block.duplicate());
            }
            i = i + 1;
        }
        assert(!some_at_height(self@, height));
        None
    }

    /// The header of the first block stored at `height`.
    pub(crate) fn header_at_height(&self, height: u64) -> (r: Option<BlockHeader>)
        requires
            self@.wf(),
        ensures
            r matches Some(h) ==> self@.block_at_height(height) is Some && self@.block_at_height(
                height,
            ).unwrap().header == h,
            r is None ==> self@.block_at_height(height) is None,
    {
        proof {
            lemma_first_at(self@, height);
        }
        let mut i: usize = 0;
        while i < self.entries.len()
            invariant
                i <= self.entries@.len(),
                forall|j: int| 0 <= j < i ==> #[trigger] self@.entries[j].height != height,
            decreases self.entries.len() - i,
        {
            if self.entries[i].height == height {
                assert(self@.first_at(height, i as int));
                return Some(self.entries[i].block.header);
            }
            i = i + 1;
        }
        assert(!some_at_height(self@, height));
        None
    }

    /// Whether some block is stored at `height`.
    pub fn has_height(&self, height: u64) -> (r: bool)
        requires
            self@.wf(),
        ensures
            r == some_at_height(self@, height),
    {
        let mut i: usize = 0;
        while i < self.entries.len()
            invariant
                i <= self.entries@.len(),
                forall|j: int| 0 <= j < i ==> #[trigger] self@.entries[j].height != height,
            decreases self.entries.len() - i,
        {
            if self.entries[i].height == height {
                assert(self@.entries[i as int].height == height);
                return true;
            }
            i = i + 1;
        }
        false
    }

    /// Whether a block with this hash is stored.
    pub fn has_block(&self, hash: &types::Hash) -> (r: bool)
        requires
            self@.wf(),
        ensures
            r == self@.has(hash@),
    {
        self.find_index(hash).is_some()
    }

    /// The height at which the block with this hash is stored.
    pub fn height_of(&self, hash: &types::Hash) -> (r: Option<u64>)
        requires
            self@.wf(),
        ensures
            r == self@.height_of(hash@),
    {
        match self.find_index(hash) {
            Some(i) => Some(self.entries[i].height),
            None => None,
        }
    }

    /// The hashes of all stored blocks, each once, in insertion order.
    pub fn all_hashes(&self) -> (r: Vec<types::Hash>)
        requires
            self@.wf(),
        ensures
            r@.len() == self@.entries.len(),
            forall|i: int| 0 <= i < r@.len() ==> #[trigger] r@[i]@ == self@.entries[i].hash,
    {
        let mut out: Vec<types::Hash> = Vec::with_capacity(self.entries.len());
        let mut i: usize = 0;
        while i < self.entries.len()
            invariant
                i <= self.entries@.len(),
                out@.len() == i,
                forall|j: int| 0 <= j < i ==> #[trigger] out@[j]@ == self@.entries[j].hash,
            decreases self.entries.len() - i,
        {
            out.push(self.entries[i].hash);
            i = i + 1;
        }
        out
    }

    /// Stores `block` at `height` under its hash (replacing an entry with the
    /// same hash) and makes it the tip.
    pub fn store_block(&mut self, block: &Block, height: u64)
        requires
            old(self)@.wf(),
        ensures
            final(self)@.wf(),
            final(self)@ == store_view(old(self)@, block@, height),
    {
        let hash = block.hash();
        let entry = StoredBlock { hash, height, block: block.duplicate() };
        let ghost e = entry@;
        match self.find_index(&hash) {
            Some(i) => {
                self.entries.set(i, entry);
                assert(self@.entries =~= old(self)@.entries.update(i as int, e));
            },
            None => {
                self.entries.push(entry);
                assert(self@.entries =~= old(self)@.entries.push(e));
            },
        }
        self.tip_hash = hash;
        self.tip_height = height;
    }

    /// Makes `hash` at `height` the tip; the entries stay as they are.
    pub(crate) fn set_tip(&mut self, hash: &types::Hash, height: u64)
        ensures
            final(self)@.entries == old(self)@.entries,
            final(self)@.tip_hash == hash@,
            final(self)@.tip_height == height,
    {
        self.tip_hash = *hash;
        self.tip_height = height;
    }

    /// Clears the payloads of every block at least `PRUNE_DEPTH` below the
    /// tip height, so that the last `PRUNE_DEPTH` heights keep theirs;
    /// headers and nonces stay. Nothing happens while the tip is below
    /// `PRUNE_DEPTH`.
    pub fn prune(&mut self)
        requires
            old(self)@.wf(),
        ensures
            final(self)@ == prune_view(old(self)@),
            final(self)@.wf(),
    {
        let prune_before = if self.tip_height >= PRUNE_DEPTH {
            self.tip_height - PRUNE_DEPTH + 1
        } else {
            0
        };
        if prune_before == 0 {
            assert(self@.entries =~= prune_view(old(self)@).entries);
            return ;
        }
        let n = self.entries.len();
        let mut i: usize = 0;
        while i < n
            invariant
                n == self.entries@.len(),
                n == old(self)@.entries.len(),
                prune_before == prune_height(old(self)@.tip_height),
                prune_before > 0,
                i <= n,
                self.tip_hash == old(self).tip_hash,
                self.tip_height == old(self).tip_height,
                forall|j: int|
                    0 <= j < i ==> #[trigger] self@.entries[j] == pruned_entry(
                        old(self)@.entries[j],
                        prune_before,
                    ),
                forall|j: int| i <= j < n ==> #[trigger] self@.entries[j] == old(self)@.entries[j],
            decreases n - i,
        {
            if self.entries[i].height < prune_before {
                let ghost prev = self.entries@;
                let ghost prev_view = self@;
                assert(prev_view.entries[i as int] == old(self)@.entries[i as int]);
                assert(prev_view.entries[i as int] == prev[i as int]@);
                let mut e = self.entries.remove(i);
                e.block.payloads = Vec::new();
                let ghost e_new = e;
                self.entries.insert(i, e);
                assert(self.entries@ =~= prev.update(i as int, e_new));
                assert(e_new.block.payloads@ == Seq::<Payload>::empty());
                assert(e_new.hash == prev[i as int].hash);
                assert(e_new.block.header == prev[i as int].block.header);
                assert(self@.entries[i as int].block.payloads == Seq::<Payload>::empty());
                let ghost pe = pruned_entry(old(self)@.entries[i as int], prune_before);
                assert(old(self)@.entries[i as int] == prev[i as int]@);
                assert(old(self)@.entries[i as int].height < prune_before);
                assert(self@.entries[i as int].hash == pe.hash);
                assert(self@.entries[i as int].height == pe.height);
                assert(self@.entries[i as int].block.header == pe.block.header);
                assert(self@.entries[i as int].block.nonce == pe.block.nonce);
                assert(self@.entries[i as int].block.payloads =~= pe.block.payloads);
                assert(self@.entries[i as int] =~= pe);
                assert forall|j: int| 0 <= j < n && j != i implies #[trigger] self@.entries[j]
                    == prev_view.entries[j] by {
                    assert(self.entries@[j] == prev[j]);
                }
            } else {
                assert(self@.entries[i as int] =~= pruned_entry(
                    old(self)@.entries[i as int],
                    prune_before,
                ));
            }
            i = i + 1;
        }
        assert(self@.entries =~= prune_view(old(self)@).entries);
    }

    /// The 40-byte tip record: the tip hash, then the tip height as eight
    /// little-endian bytes.
    pub fn encode_meta(&self) -> (out: Vec<u8>)
        ensures
            out@ == self@.tip_hash + le_bytes(self@.tip_height as nat, 8),
    {
        let mut out: Vec<u8> = Vec::with_capacity(40);
        let mut i: usize = 0;
        while i < 32
            invariant
                i <= 32,
                out@ == self.tip_hash@.take(i as int),
            decreases 32 - i,
        {
            out.push(self.tip_hash[i]);
            i = i + 1;
            assert(out@ =~= self.tip_hash@.take(i as int));
        }
        assert(self.tip_hash@.take(32) =~= self.tip_hash@);
        let mut v: u64 = self.tip_height;
        let mut k: usize = 0;
        while k < 8
            invariant
                k <= 8,
                out@ + le_bytes(v as nat, (8 - k) as nat) == self.tip_hash@ + le_bytes(
                    self.tip_height as nat,
                    8,
                ),
            decreases 8 - k,
        {
            let ghost before = out@;
            assert(le_bytes(v as nat, (8 - k) as nat) == seq![(v % 256) as u8] + le_bytes(
                (v / 256) as nat,
                (8 - k - 1) as nat,
            ));
            out.push((v % 256) as u8);
            v = v / 256;
            k = k + 1;
            assert(out@ + le_bytes(v as nat, (8 - k) as nat) =~= before + (seq![(out@.last())]
                + le_bytes(v as nat, (8 - k) as nat)));
        }
        assert(le_bytes(v as nat, 0) =~= Seq::<u8>::empty());
        assert(out@ + Seq::<u8>::empty() =~= out@);
        out
    }

    /// Reads a tip record: with at least 40 bytes, the tip hash becomes the
    /// first 32 bytes and the tip height the little-endian value of the next
    /// eight; a shorter record changes nothing.
    pub fn load_meta(&mut self, bytes: &[u8])
        requires
            old(self)@.wf(),
        ensures
            final(self)@.wf(),
            final(self)@.entries == old(self)@.entries,
            bytes@.len() >= 40 ==> final(self)@.tip_hash == bytes@.subrange(0, 32)
                && final(self)@.tip_height == le_value(bytes@.subrange(32, 40)),
            bytes@.len() < 40 ==> final(self)@ == old(self)@,
    {
        if bytes.len() >= 40 {
            let mut i: usize = 0;
            while i < 32
                invariant
                    i <= 32,
                    bytes@.len() >= 40,
                    self.entries@ == old(self).entries@,
                    forall|j: int| 0 <= j < i ==> self.tip_hash@[j] == bytes@[j],
                decreases 32 - i,
            {
                self.tip_hash[i] = bytes[i];
                i = i + 1;
            }
            assert(self.tip_hash@ =~= bytes@.subrange(0, 32));
            let mut v: u64 = 0;
            let mut k: usize = 8;
            assert(bytes@.subrange(40, 40) =~= Seq::<u8>::empty());
            while k > 0
                invariant
                    k <= 8,
                    bytes@.len() >= 40,
                    v as nat == le_value(bytes@.subrange(32 + k, 40)),
                decreases k,
            {
                k = k - 1;
                let b = bytes[32 + k];
                proof {
                    let sub = bytes@.subrange(32 + k, 40);
                    assert(sub.drop_first() =~= bytes@.subrange(32 + k + 1, 40));
                    lemma_le_value_bound(sub);
                    lemma_pow256_8();
                    vstd::arithmetic::power::lemma_pow_increases(256, (8 - k) as nat, 8);
                }
                v = b as u64 + 256 * v;
            }
            assert(self@.entries == old(self)@.entries);
            self.tip_height = v;
        }
    }

    /// Rebuilds the index from the blocks of a block file, read in order: the
    /// `i`-th block is indexed at height `i` and becomes the tip. Reading stops
    /// at the first block whose hash is already indexed at another height.
    pub fn rebuild_index(&mut self, blocks: &Vec<Block>)
        requires
            old(self)@.wf(),
        ensures
            final(self)@.wf(),
            final(self)@ == rebuild_view(old(self)@, block_views(blocks@), 0),
    {
        let mut height: u64 = 0;
        let mut i: usize = 0;
        let ghost bv = block_views(blocks@);
        while i < blocks.len()
            invariant_except_break
                self@.wf(),
                i <= blocks@.len(),
                height == i,
                bv == block_views(blocks@),
                rebuild_view(self@, bv, i as nat) == rebuild_view(old(self)@, bv, 0),
            ensures
                self@.wf(),
                self@ == rebuild_view(old(self)@, bv, 0),
            decreases blocks.len() - i,
        {
            let block = &blocks[i];
            let hash = block.hash();
            assert(bv[i as int] == block@);
            match self.height_of(&hash) {
                Some(h) => {
                    if h != height {
                        assert(rebuild_view(self@, bv, i as nat) == self@);
                        break;
                    }
                },
                None => {},
            }
            if height == u64::MAX {
                assert(rebuild_view(self@, bv, i as nat) == self@);
                break;
            }
            self.store_block(block, height);
            height = height + 1;
            i = i + 1;
        }
    }
}

/// The store after `store_block(b, height)`: the entry for `b`'s hash is
/// replaced in place, or appended when the hash is new; `b` becomes the tip.
pub open spec fn store_view(s: StorageView, b: BlockView, height: u64) -> StorageView {
    let h = block_hash(b.header, b.nonce);
    let e = EntryView { hash: h, height, block: b };
    StorageView {
        entries: if s.has(h) {
            s.entries.update(s.index_of(h), e)
        } else {
            s.entries.push(e)
        },
        tip_hash: h,
        tip_height: height,
    }
}

/// The store after rebuilding from `blocks[i..]`, the next one at height `i`.
pub open spec fn rebuild_view(s: StorageView, blocks: Seq<BlockView>, i: nat) -> StorageView
    decreases blocks.len() - i,
{
    if i >= blocks.len() || i >= u64::MAX {
        s
    } else {
        let b = blocks[i as int];
        let h = block_hash(b.header, b.nonce);
        if s.has(h) && s.height_of(h).unwrap() != i {
            s
        } else {
            rebuild_view(store_view(s, b, i as u64), blocks, i + 1)
        }
    }
}

pub open spec fn block_views(bs: Seq<Block>) -> Seq<BlockView> {
    Seq::new(bs.len(), |i: int| bs[i]@)
}

/// Payloads are kept at or above this height when pruning at `tip_height`:
/// the last `PRUNE_DEPTH` heights up to the tip keep theirs.
pub open spec fn prune_height(tip_height: u64) -> u64 {
    if tip_height >= PRUNE_DEPTH {
        (tip_height - PRUNE_DEPTH + 1) as u64
    } else {
        0
    }
}

pub open spec fn pruned_entry(e: EntryView, prune_before: u64) -> EntryView {
    if e.height < prune_before {
        EntryView { block: BlockView { payloads: Seq::empty(), ..e.block }, ..e }
    } else {
        e
    }
}

/// The store after pruning.
pub open spec fn prune_view(s: StorageView) -> StorageView {
    if prune_height(s.tip_height) == 0 {
        s
    } else {
        StorageView {
            entries: Seq::new(s.entries.len(), |i: int| pruned_entry(s.entries[i], prune_height(s.tip_height))),
            ..s
        }
    }
}

/// A block-file record: the length of `bytes` as four little-endian bytes,
/// then `bytes`.
pub fn frame_record(bytes: &[u8]) -> (out: Vec<u8>)
    requires
        bytes@.len() <= u32::MAX,
    ensures
        out@ == le_bytes(bytes@.len(), 4) + bytes@,
{
    let mut out: Vec<u8> = Vec::new();
    let mut v: usize = bytes.len();
    let mut k: usize = 0;
    while k < 4
        invariant
            k <= 4,
            out@ + le_bytes(v as nat, (4 - k) as nat) == le_bytes(bytes@.len(), 4),
        decreases 4 - k,
    {
        let ghost before = out@;
        assert(le_bytes(v as nat, (4 - k) as nat) == seq![(v % 256) as u8] + le_bytes(
            (v / 256) as nat,
            (4 - k - 1) as nat,
        ));
        out.push((v % 256) as u8);
        v = v / 256;
        k = k + 1;
        assert(out@ + le_bytes(v as nat, (4 - k) as nat) =~= before + (seq![(out@.last())]
            + le_bytes(v as nat, (4 - k) as nat)));
    }
    assert(le_bytes(v as nat, 0) =~= Seq::<u8>::empty());
    assert(out@ + Seq::<u8>::empty() =~= out@);
    let ghost prefix = out@;
    let mut i: usize = 0;
    while i < bytes.len()
        invariant
            i <= bytes@.len(),
            out@ == prefix + bytes@.take(i as int),
        decreases bytes.len() - i,
    {
        out.push(bytes[i]);
        i = i + 1;
        assert(out@ =~= prefix + bytes@.take(i as int));
    }
    assert(bytes@.take(bytes@.len() as int) =~= bytes@);
    out
}

/// The record starting at `offset` in a block file: its body's start and
/// length, when the four length bytes and the whole body lie in `file`.
pub fn read_record(file: &[u8], offset: usize) -> (r: Option<(usize, usize)>)
    ensures
        r matches Some((start, len)) ==> offset + 4 <= file@.len() && start == offset + 4 && len
            == le_value(file@.subrange(offset as int, offset + 4)) && start + len <= file@.len(),
        r is None ==> offset + 4 > file@.len() || offset + 4 + le_value(
            file@.subrange(offset as int, offset + 4),
        ) > file@.len(),
{
    if offset > file.len() || file.len() - offset < 4 {
        return None;
    }
    let b0 = file[offset] as usize;
    let b1 = file[offset + 1] as usize;
    let b2 = file[offset + 2] as usize;
    let b3 = file[offset + 3] as usize;
    let len = b0 + 256 * (b1 + 256 * (b2 + 256 * b3));
    proof {
        let sub = file@.subrange(offset as int, offset + 4);
        assert(sub.drop_first().drop_first().drop_first().drop_first() =~= Seq::<u8>::empty());
        assert(le_value(sub) == b0 + 256 * (b1 + 256 * (b2 + 256 * b3))) by {
            reveal_with_fuel(le_value, 5);
        }
    }
    let start = offset + 4;
    if len > file.len() - start {
        return None;
    }
    Some((start, len))
}


// ---------------------------------------------------------------------------
// Laws of the store

/// Storing a block gives back that block under its hash, at its height, as
/// the new tip; a new hash leaves every earlier entry as it was.
pub proof fn lemma_store_then_get(s: StorageView, b: BlockView, height: u64)
    requires
        s.wf(),
    ensures
        store_view(s, b, height).wf(),
        store_view(s, b, height).block_of(block_hash(b.header, b.nonce)) == Some(b),
        store_view(s, b, height).height_of(block_hash(b.header, b.nonce)) == Some(height),
        store_view(s, b, height).tip_hash == block_hash(b.header, b.nonce),
        store_view(s, b, height).tip_height == height,
        !s.has(block_hash(b.header, b.nonce)) ==> s.kept_in(store_view(s, b, height)),
        !s.has(block_hash(b.header, b.nonce)) ==> forall|x: Seq<u8>|
            #[trigger] store_view(s, b, height).has(x) == (s.has(x) || x == block_hash(b.header, b.nonce)),
{
    reveal(StorageView::kept_in);
    let h = block_hash(b.header, b.nonce);
    let t = store_view(s, b, height);
    if s.has(h) {
        let i = s.index_of(h);
        assert forall|x: int, y: int|
            0 <= x < t.entries.len() && 0 <= y < t.entries.len() && x != y
                implies #[trigger] t.entries[x].hash != #[trigger] t.entries[y].hash by {
            if x != i && y != i {
                assert(s.entries[x].hash != s.entries[y].hash);
            } else if x == i {
                assert(s.entries[y].hash != s.entries[i].hash);
            } else {
                assert(s.entries[x].hash != s.entries[i].hash);
            }
        }
        lemma_index_of(t, h, i);
    } else {
        let i = s.entries.len() as int;
        assert forall|x: int, y: int|
            0 <= x < t.entries.len() && 0 <= y < t.entries.len() && x != y
                implies #[trigger] t.entries[x].hash != #[trigger] t.entries[y].hash by {
            if x != i && y != i {
                assert(s.entries[x].hash != s.entries[y].hash);
            } else if x == i {
                assert(s.entries[y].hash == t.entries[y].hash);
            } else {
                assert(s.entries[x].hash == t.entries[x].hash);
            }
        }
        lemma_index_of(t, h, i);
        assert forall|k: int| 0 <= k < s.entries.len() implies {
            let e = #[trigger] s.entries[k];
            &&& t.has(e.hash)
            &&& t.height_of(e.hash) == Some(e.height)
            &&& t.block_of(e.hash).unwrap().header == e.block.header
            &&& t.block_of(e.hash).unwrap().nonce == e.block.nonce
            &&& payloads_kept(t, e.height, e.block.payloads, t.block_of(e.hash).unwrap().payloads)
        } by {
            assert(t.entries[k] == s.entries[k]);
            lemma_index_of(t, s.entries[k].hash, k);
        }
        assert forall|x: Seq<u8>| #[trigger] t.has(x) == (s.has(x) || x == h) by {
            if t.has(x) {
                let k = choose|k: int| 0 <= k < t.entries.len() && #[trigger] t.entries[k].hash == x;
                if k < s.entries.len() {
                    assert(s.entries[k].hash == x);
                }
            }
            if s.has(x) {
                let k = choose|k: int| 0 <= k < s.entries.len() && #[trigger] s.entries[k].hash == x;
                assert(t.entries[k].hash == x);
            }
        }
    }
}

/// Storing a block one above its stored parent, or a parentless block at
/// height 0, keeps a store linked and its heights bounded.
pub proof fn lemma_store_keeps_linked(s: StorageView, b: BlockView, height: u64)
    requires
        s.wf(),
        s.linked(),
        s.heights_bounded(),
        !s.has(block_hash(b.header, b.nonce)) || height == 0,
        height == 0 ==> b.header.previous_hash@ == zero_hash(),
        height > 0 ==> b.header.previous_hash@ != zero_hash() && s.has(b.header.previous_hash@)
            && s.height_of(b.header.previous_hash@).unwrap() + 1 == height,
    ensures
        store_view(s, b, height).linked(),
        store_view(s, b, height).heights_bounded(),
{
    let h = block_hash(b.header, b.nonce);
    let t = store_view(s, b, height);
    lemma_store_then_get(s, b, height);
    let i = if s.has(h) { s.index_of(h) } else { s.entries.len() as int };
    assert(t.entries[i].hash == h);
    assert forall|k: int| 0 <= k < t.entries.len() implies {
        let e = #[trigger] t.entries[k];
        let p = e.block.header.previous_hash@;
        &&& e.height == 0 ==> p == zero_hash()
        &&& e.height > 0 ==> p != zero_hash() && t.has(p) && t.height_of(p).unwrap() < e.height
    } by {
        let e = t.entries[k];
        let p = e.block.header.previous_hash@;
        if k == i {
            if height > 0 {
                let j = s.index_of(p);
                assert(s.entries[j].hash == p);
                assert(p != h);
                assert(t.entries[j] == s.entries[j]);
                lemma_index_of(t, p, j);
            }
        } else {
            assert(e == s.entries[k]);
            if e.height > 0 {
                let j = s.index_of(p);
                assert(s.entries[j].hash == p);
                if j == i {
                    lemma_index_of(t, p, j);
                } else {
                    assert(t.entries[j] == s.entries[j]);
                    lemma_index_of(t, p, j);
                }
            }
        }
    }
    if height > 0 {
        let j = s.index_of(b.header.previous_hash@);
        assert(s.entries[j].height < s.entries.len());
    }
}

/// Pruning keeps a store well formed, linked and bounded, and keeps
/// everything stored (headers, nonces and heights; payloads kept or cleared).
pub proof fn lemma_prune_keeps(s: StorageView)
    requires
        s.wf(),
    ensures
        prune_view(s).wf(),
        s.linked() ==> prune_view(s).linked(),
        s.heights_bounded() ==> prune_view(s).heights_bounded(),
        reaches_height(s, s.tip_height as int) ==> s.kept_in(prune_view(s)),
        forall|x: Seq<u8>| #[trigger] prune_view(s).has(x) == s.has(x),
        prune_view(s).tip_hash == s.tip_hash,
        prune_view(s).tip_height == s.tip_height,
{
    reveal(StorageView::kept_in);
    let t = prune_view(s);
    assert forall|k: int| 0 <= k < s.entries.len() implies #[trigger] t.entries[k].hash == s.entries[k].hash
        && t.entries[k].height == s.entries[k].height && t.entries[k].block.header
        == s.entries[k].block.header && t.entries[k].block.nonce == s.entries[k].block.nonce && (
    t.entries[k].block.payloads == s.entries[k].block.payloads || (t.entries[k].block.payloads.len()
        == 0 && s.entries[k].height + PRUNE_DEPTH <= s.tip_height)) by {}
    assert forall|x: Seq<u8>| #[trigger] t.has(x) == s.has(x) && (s.has(x) ==> t.index_of(x) == s.index_of(x)) by {
        if s.has(x) {
            let j = s.index_of(x);
            lemma_index_of(t, x, j);
        }
        if t.has(x) {
            let j = t.index_of(x);
            assert(s.entries[j].hash == x);
        }
    }
    if reaches_height(s, s.tip_height as int) {
        let w = choose|j: int| 0 <= j < s.entries.len() && #[trigger] s.entries[j].height >= s.tip_height;
        assert(t.entries[w].height == s.entries[w].height);
        assert forall|k: int| 0 <= k < s.entries.len() implies {
            let e = #[trigger] s.entries[k];
            &&& t.has(e.hash)
            &&& t.height_of(e.hash) == Some(e.height)
            &&& t.block_of(e.hash).unwrap().header == e.block.header
            &&& t.block_of(e.hash).unwrap().nonce == e.block.nonce
            &&& payloads_kept(t, e.height, e.block.payloads, t.block_of(e.hash).unwrap().payloads)
        } by {
            lemma_index_of(s, s.entries[k].hash, k);
            lemma_index_of(t, s.entries[k].hash, k);
            assert(t.entries[w].height >= s.entries[k].height + PRUNE_DEPTH ==> reaches_height(
                t,
                s.entries[k].height + PRUNE_DEPTH,
            ));
        }
    }
    if s.linked() {
        assert forall|k: int| 0 <= k < t.entries.len() implies {
            let e = #[trigger] t.entries[k];
            let p = e.block.header.previous_hash@;
            &&& e.height == 0 ==> p == zero_hash()
            &&& e.height > 0 ==> p != zero_hash() && t.has(p) && t.height_of(p).unwrap() < e.height
        } by {
            assert(s.entries[k].hash == t.entries[k].hash);
        }
    }
    if s.heights_bounded() {
        assert forall|k: int| 0 <= k < t.entries.len() implies #[trigger] t.entries[k].height
            < t.entries.len() by {
            assert(s.entries[k].height == t.entries[k].height);
        }
    }
}

pub proof fn lemma_kept_refl(s: StorageView)
    requires
        s.wf(),
    ensures
        s.kept_in(s),
{
    reveal(StorageView::kept_in);
    assert forall|k: int| 0 <= k < s.entries.len() implies {
        let e = #[trigger] s.entries[k];
        &&& s.has(e.hash)
        &&& s.height_of(e.hash) == Some(e.height)
        &&& s.block_of(e.hash).unwrap().header == e.block.header
        &&& s.block_of(e.hash).unwrap().nonce == e.block.nonce
        &&& payloads_kept(s, e.height, e.block.payloads, s.block_of(e.hash).unwrap().payloads)
    } by {
        lemma_index_of(s, s.entries[k].hash, k);
    }
}

pub proof fn lemma_kept_trans(a: StorageView, b: StorageView, c: StorageView)
    requires
        a.kept_in(b),
        b.kept_in(c),
        b.wf(),
    ensures
        a.kept_in(c),
{
    reveal(StorageView::kept_in);
    assert forall|k: int| 0 <= k < a.entries.len() implies {
        let e = #[trigger] a.entries[k];
        &&& c.has(e.hash)
        &&& c.height_of(e.hash) == Some(e.height)
        &&& c.block_of(e.hash).unwrap().header == e.block.header
        &&& c.block_of(e.hash).unwrap().nonce == e.block.nonce
        &&& payloads_kept(c, e.height, e.block.payloads, c.block_of(e.hash).unwrap().payloads)
    } by {
        let e = a.entries[k];
        let j = b.index_of(e.hash);
        assert(b.entries[j].hash == e.hash);
        assert(b.entries[j] == b.entries[j]);
        let f = b.entries[j];
        assert(c.has(f.hash));
        let pb = b.block_of(e.hash).unwrap().payloads;
        let pc = c.block_of(e.hash).unwrap().payloads;
        if pc != e.block.payloads {
            if pb != e.block.payloads {
                let w = choose|w: int| 0 <= w < b.entries.len() && #[trigger] b.entries[w].height >= e.height
                    + PRUNE_DEPTH;
                let g = b.entries[w];
                assert(c.has(g.hash) && c.height_of(g.hash) == Some(g.height));
                let x = c.index_of(g.hash);
                assert(c.entries[x].height >= e.height + PRUNE_DEPTH);
            }
        }
    }
}


/// What `kept_in` says of one stored hash.
pub proof fn lemma_kept_entry(a: StorageView, b: StorageView, h: Seq<u8>)
    requires
        a.kept_in(b),
        a.has(h),
    ensures
        b.has(h),
        b.height_of(h) == a.height_of(h),
        b.block_of(h).unwrap().header == a.block_of(h).unwrap().header,
        b.block_of(h).unwrap().nonce == a.block_of(h).unwrap().nonce,
        payloads_kept(b, a.height_of(h).unwrap(), a.block_of(h).unwrap().payloads, b.block_of(h).unwrap().payloads),
{
    reveal(StorageView::kept_in);
    let k = a.index_of(h);
    assert(a.entries[k].hash == h);
}


/// Reading back an encoded tip record restores the tip hash and height.
pub proof fn lemma_meta_roundtrip(tip_hash: Seq<u8>, tip_height: u64)
    requires
        tip_hash.len() == 32,
    ensures
        (tip_hash + le_bytes(tip_height as nat, 8)).len() == 40,
        (tip_hash + le_bytes(tip_height as nat, 8)).subrange(0, 32) == tip_hash,
        le_value((tip_hash + le_bytes(tip_height as nat, 8)).subrange(32, 40)) == tip_height,
{
    let b = tip_hash + le_bytes(tip_height as nat, 8);
    lemma_le_roundtrip(tip_height as nat, 8);
    lemma_pow256_8();
    assert(b.subrange(0, 32) =~= tip_hash);
    assert(b.subrange(32, 40) =~= le_bytes(tip_height as nat, 8));
}

/// The length prefix of a framed record reads back as the body's length,
/// and the body follows it.
pub proof fn lemma_record_roundtrip(body: Seq<u8>)
    requires
        body.len() <= u32::MAX,
    ensures
        le_value((le_bytes(body.len(), 4) + body).subrange(0, 4)) == body.len(),
        (le_bytes(body.len(), 4) + body).subrange(4, 4 + body.len() as int) == body,
{
    let f = le_bytes(body.len(), 4) + body;
    lemma_le_roundtrip(body.len(), 4);
    assert(vstd::arithmetic::power::pow(256, 4) == 0x1_0000_0000) by {
        reveal_with_fuel(vstd::arithmetic::power::pow, 5);
    }
    assert(f.subrange(0, 4) =~= le_bytes(body.len(), 4));
    assert(f.subrange(4, 4 + body.len() as int) =~= body);
}


/// `a` and `b` hold the same entries (hashes, heights, headers, nonces) in
/// the same order; only payloads and the tip may differ.
pub open spec fn same_but_payloads(a: StorageView, b: StorageView) -> bool {
    &&& a.entries.len() == b.entries.len()
    &&& forall|k: int|
        #![trigger a.entries[k]]
        0 <= k < a.entries.len() ==> {
            &&& a.entries[k].hash == b.entries[k].hash
            &&& a.entries[k].height == b.entries[k].height
            &&& a.entries[k].block.header == b.entries[k].block.header
            &&& a.entries[k].block.nonce == b.entries[k].block.nonce
        }
}

/// Stores that differ only in payloads and tip agree on every hash, height,
/// header and first block at a height.
pub proof fn lemma_same_but_payloads(a: StorageView, b: StorageView)
    requires
        a.wf(),
        same_but_payloads(a, b),
    ensures
        b.wf(),
        forall|h: Seq<u8>| #[trigger] b.has(h) == a.has(h),
        forall|h: Seq<u8>| #[trigger] b.height_of(h) == a.height_of(h),
        forall|h: Seq<u8>|
            a.has(h) ==> #[trigger] b.block_of(h).unwrap().header == a.block_of(h).unwrap().header,
        forall|x: u64|
            (#[trigger] b.block_at_height(x) is Some) == (a.block_at_height(x) is Some),
        forall|x: u64|
            b.block_at_height(x) is Some ==> #[trigger] b.block_at_height(x).unwrap().header == a.block_at_height(
                x,
            ).unwrap().header,
        a.entries == b.entries ==> forall|h: Seq<u8>| #[trigger] b.block_of(h) == a.block_of(h),
        a.entries == b.entries ==> a.kept_in(b),
{
    assert forall|i: int, j: int|
        0 <= i < b.entries.len() && 0 <= j < b.entries.len() && i != j implies #[trigger] b.entries[i].hash
        != #[trigger] b.entries[j].hash by {
        assert(a.entries[i].hash != a.entries[j].hash);
    }
    assert forall|i: int| 0 <= i < b.entries.len() implies #[trigger] b.entries[i].hash == block_hash(
        b.entries[i].block.header,
        b.entries[i].block.nonce,
    ) by {
        assert(a.entries[i].hash == b.entries[i].hash);
    }
    assert forall|h: Seq<u8>| #[trigger] b.has(h) == a.has(h) && (a.has(h) ==> b.index_of(h) == a.index_of(h)) by {
        if a.has(h) {
            let i = a.index_of(h);
            assert(b.entries[i].hash == h);
            lemma_index_of(b, h, i);
        }
        if b.has(h) {
            let i = b.index_of(h);
            assert(a.entries[i].hash == h);
        }
    }
    if a.entries == b.entries {
        assert forall|h: Seq<u8>| #[trigger] b.block_of(h) == a.block_of(h) by {
            if a.has(h) {
                assert(b.has(h));
            }
        }
        reveal(StorageView::kept_in);
        assert forall|k: int| 0 <= k < a.entries.len() implies {
            let e = #[trigger] a.entries[k];
            &&& b.has(e.hash)
            &&& b.height_of(e.hash) == Some(e.height)
            &&& b.block_of(e.hash).unwrap().header == e.block.header
            &&& b.block_of(e.hash).unwrap().nonce == e.block.nonce
            &&& payloads_kept(b, e.height, e.block.payloads, b.block_of(e.hash).unwrap().payloads)
        } by {
            lemma_index_of(a, a.entries[k].hash, k);
            assert(b.has(a.entries[k].hash));
            assert(b.block_of(a.entries[k].hash) == a.block_of(a.entries[k].hash));
        }
    }
    assert forall|h: Seq<u8>| #[trigger] b.height_of(h) == a.height_of(h) by {
        if a.has(h) {
            assert(b.has(h));
        }
    }
    assert forall|h: Seq<u8>| a.has(h) implies #[trigger] b.block_of(h).unwrap().header == a.block_of(
        h,
    ).unwrap().header by {
        assert(b.has(h));
    }
    assert forall|x: u64| #[trigger] b.block_at_height(x) is Some == (a.block_at_height(x) is Some) && (b.block_at_height(
        x,
    ) is Some ==> b.block_at_height(x).unwrap().header == a.block_at_height(x).unwrap().header) by {
        lemma_first_at(a, x);
        lemma_first_at(b, x);
        assert forall|k: int| #[trigger] a.first_at(x, k) == b.first_at(x, k) by {
            if 0 <= k < a.entries.len() {
                assert(a.entries[k].height == b.entries[k].height);
                if a.first_at(x, k) {
                    assert forall|j: int| 0 <= j < k implies #[trigger] b.entries[j].height != x by {
                        assert(a.entries[j].height == b.entries[j].height);
                        assert(a.entries[j].height != x);
                    }
                }
                if b.first_at(x, k) {
                    assert forall|j: int| 0 <= j < k implies #[trigger] a.entries[j].height != x by {
                        assert(a.entries[j].height == b.entries[j].height);
                        assert(b.entries[j].height != x);
                    }
                }
            }
        }
        if exists|k: int| #[trigger] a.first_at(x, k) {
            let ka = choose|k: int| #[trigger] a.first_at(x, k);
            let kb = choose|k: int| #[trigger] b.first_at(x, k);
            assert(a.first_at(x, ka));
            assert(b.first_at(x, ka));
            assert(b.first_at(x, kb));
            assert(ka == kb);
        } else {
            if exists|k: int| #[trigger] b.first_at(x, k) {
                let kb = choose|k: int| #[trigger] b.first_at(x, k);
                assert(a.first_at(x, kb));
            }
        }
    }
}


// ---------------------------------------------------------------------------
// The index file

/// Index entries as `(hash, height, offset)` values.
pub open spec fn index_views(es: Seq<([u8; 32], (u64, u64))>) -> Seq<(Seq<u8>, u64, u64)> {
    Seq::new(es.len(), |i: int| (es[i].0@, es[i].1.0, es[i].1.1))
}

/// The index of `s` with record offsets `offsets`: each entry's hash, height
/// and offset, in store order, for as many entries as there are offsets.
pub open spec fn store_index(s: StorageView, offsets: Seq<u64>) -> Seq<(Seq<u8>, u64, u64)> {
    let n = if offsets.len() < s.entries.len() { offsets.len() } else { s.entries.len() };
    Seq::new(n, |i: int| (s.entries[i].hash, s.entries[i].height, offsets[i]))
}

/// The store after restoring index entries `es[i..]` with the blocks `bs`
/// read at their offsets: an entry whose block was read and hashes to the
/// entry's hash is stored at the entry's height; the others are skipped.
pub open spec fn restored(s: StorageView, es: Seq<(Seq<u8>, u64, u64)>, bs: Seq<Option<Block>>, i: nat) -> StorageView
    decreases es.len() - i,
{
    if i >= es.len() || i >= bs.len() {
        s
    } else {
        match bs[i as int] {
            Some(b) => if block_hash(b.header, b.nonce) == es[i as int].0 {
                restored(store_view(s, b@, es[i as int].1), es, bs, i + 1)
            } else {
                restored(s, es, bs, i + 1)
            },
            None => restored(s, es, bs, i + 1),
        }
    }
}

/// The entries of an index file, in the order written; an index that does
/// not decode has none.
pub fn parse_index(bytes: &[u8]) -> (r: Vec<([u8; 32], (u64, u64))>)
    ensures
        index_views(r@) == match index_entries(bytes@) {
            Some(e) => e,
            None => Seq::empty(),
        },
{
    match decode_index(bytes) {
        Some(v) => v,
        None => {
            let v: Vec<([u8; 32], (u64, u64))> = Vec::new();
            assert(index_views(v@) =~= Seq::empty());
            v
        },
    }
}

impl BlockStorage {
    /// The index file for this store: each stored block's hash, height and
    /// the offset of its record (`offsets[i]` for the `i`-th stored block).
    pub fn encode_index(&self, offsets: &Vec<u64>) -> (out: Vec<u8>)
        ensures
            out@ == index_encoding(store_index(self@, offsets@)),
    {
        let n = if offsets.len() < self.entries.len() { offsets.len() } else { self.entries.len() };
        let mut entries: Vec<([u8; 32], (u64, u64))> = Vec::new();
        let mut i: usize = 0;
        while i < n
            invariant
                n == (if offsets@.len() < self@.entries.len() { offsets@.len() } else { self@.entries.len() }),
                i <= n,
                entries@.len() == i,
                forall|j: int|
                    0 <= j < i ==> (#[trigger] entries@[j]).0@ == self@.entries[j].hash && entries@[j].1.0
                        == self@.entries[j].height && entries@[j].1.1 == offsets@[j],
            decreases n - i,
        {
            let e = &self.entries[i];
            assert(self@.entries[i as int] == self.entries@[i as int]@);
            entries.push((e.hash, (e.height, offsets[i])));
            i = i + 1;
        }
        assert(index_views(entries@) =~= store_index(self@, offsets@));
        encode_index(&entries)
    }

    /// Refills the store from index entries and the blocks read at their
    /// offsets (`blocks[i]` for `entries[i]`): each entry whose block was read
    /// and hashes to the entry's hash is stored at the entry's height, in
    /// index order. The tip then comes from the tip record `meta`, or is the
    /// zero hash at height 0 when the record is shorter than 40 bytes.
    pub fn restore(&mut self, entries: &Vec<([u8; 32], (u64, u64))>, blocks: &Vec<Option<Block>>, meta: &[u8])
        requires
            old(self)@.wf(),
        ensures
            final(self)@.wf(),
            final(self)@.entries == restored(old(self)@, index_views(entries@), blocks@, 0).entries,
            meta@.len() >= 40 ==> final(self)@.tip_hash == meta@.subrange(0, 32) && final(self)@.tip_height
                == le_value(meta@.subrange(32, 40)),
            meta@.len() < 40 ==> final(self)@.tip_hash == zero_hash() && final(self)@.tip_height == 0,
    {
        let ghost es = index_views(entries@);
        let mut i: usize = 0;
        while i < entries.len() && i < blocks.len()
            invariant
                self@.wf(),
                i <= entries@.len(),
                es == index_views(entries@),
                restored(self@, es, blocks@, i as nat).entries == restored(old(self)@, es, blocks@, 0).entries,
            decreases entries.len() - i,
        {
            let (hash, (height, _)) = entries[i];
            assert(es[i as int] == (hash@, height, entries@[i as int].1.1));
            match &blocks[i] {
                Some(b) => {
                    let h = b.hash();
                    if hash_eq(&h, &hash) {
                        self.store_block(b, height);
                    }
                },
                None => {},
            }
            i = i + 1;
        }
        if meta.len() >= 40 {
            self.load_meta(meta);
        } else {
            let zero: types::Hash = [0u8; 32];
            assert(zero@ =~= zero_hash());
            self.set_tip(&zero, 0);
        }
    }
}


/// Every block at height 0 has the zero parent, and every block above
/// height 0 sits one height above its stored parent.
pub open spec fn heights_exact(s: StorageView) -> bool {
    forall|k: int|
        0 <= k < s.entries.len() ==> {
            let e = #[trigger] s.entries[k];
            let p = e.block.header.previous_hash@;
            &&& e.height == 0 ==> p == zero_hash()
            &&& e.height > 0 ==> s.has(p) && s.height_of(p).unwrap() + 1 == e.height
        }
}

/// Storing a new block one above its stored parent, or on the zero parent
/// at height 0, keeps every block one above its parent.
pub proof fn lemma_store_keeps_exact(s: StorageView, b: BlockView, height: u64)
    requires
        s.wf(),
        heights_exact(s),
        !s.has(block_hash(b.header, b.nonce)),
        height == 0 ==> b.header.previous_hash@ == zero_hash(),
        height > 0 ==> s.has(b.header.previous_hash@) && s.height_of(b.header.previous_hash@).unwrap() + 1
            == height,
    ensures
        heights_exact(store_view(s, b, height)),
{
    let h = block_hash(b.header, b.nonce);
    let t = store_view(s, b, height);
    lemma_store_then_get(s, b, height);
    let i = s.entries.len() as int;
    assert forall|k: int| 0 <= k < t.entries.len() implies {
        let e = #[trigger] t.entries[k];
        let p = e.block.header.previous_hash@;
        &&& e.height == 0 ==> p == zero_hash()
        &&& e.height > 0 ==> t.has(p) && t.height_of(p).unwrap() + 1 == e.height
    } by {
        let e = t.entries[k];
        let p = e.block.header.previous_hash@;
        if k != i {
            assert(e == s.entries[k]);
        }
        if e.height > 0 {
            let j = s.index_of(p);
            assert(s.entries[j].hash == p);
            assert(t.entries[j] == s.entries[j]);
            lemma_index_of(t, p, j);
        }
    }
}

/// Stores that differ only in payloads and tip agree on `heights_exact`.
pub proof fn lemma_same_keeps_exact(a: StorageView, b: StorageView)
    requires
        a.wf(),
        same_but_payloads(a, b),
        heights_exact(a),
    ensures
        heights_exact(b),
{
    lemma_same_but_payloads(a, b);
    assert forall|k: int| 0 <= k < b.entries.len() implies {
        let e = #[trigger] b.entries[k];
        let p = e.block.header.previous_hash@;
        &&& e.height == 0 ==> p == zero_hash()
        &&& e.height > 0 ==> b.has(p) && b.height_of(p).unwrap() + 1 == e.height
    } by {
        let e = a.entries[k];
        assert(b.has(e.block.header.previous_hash@) == a.has(e.block.header.previous_hash@));
        assert(b.height_of(e.block.header.previous_hash@) == a.height_of(e.block.header.previous_hash@));
    }
}

} // verus!
