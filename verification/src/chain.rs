//! The chain state: the block store, the configuration, and the blocks held
//! back until their parent arrives (orphans). Processing a block validates it,
//! stores it one above its parent, adopts the orphans it unblocks, and prunes.

use vstd::prelude::*;
use crate::types;
use crate::types::{
    Address, Block, BlockHeader, BlockView, ChainConfig, Difficulty, Payload, hash_eq, is_zero_hash,
    zero_hash, merkle_root, MAX_PAYLOADS_PER_BLOCK,
};
use crate::storage::{
    prune_height, prune_view, same_but_payloads, payloads_kept, heights_exact, lemma_store_keeps_exact,
    lemma_same_keeps_exact, lemma_same_but_payloads, lemma_index_of,
    lemma_kept_entry, BlockStorage, StorageView, store_view, lemma_store_then_get, lemma_store_keeps_linked,
    lemma_prune_keeps, lemma_kept_refl, lemma_kept_trans, EntryView,
};
use crate::consensus::{
    Consensus, difficulty_for, difficulty_at, validation_result, result_view, chain_work, ancestors_of,
    first_common, best_index, lemma_best_index_bounds, lemma_difficulty_defined, lemma_walks_defined,
    walk_fuel, chain_work_fuel, lemma_chain_work_same,
};
use crate::types::unix_time_secs;

verus! {

/// A block whose parent is not stored yet, kept under its hash.
pub struct Orphan {
    hash: types::Hash,
    block: Block,
}

#[verifier::ext_equal]
pub struct OrphanView {
    pub hash: Seq<u8>,
    pub block: BlockView,
}

impl View for Orphan {
    type V = OrphanView;

    closed spec fn view(&self) -> OrphanView {
        OrphanView { hash: self.hash@, block: self.block@ }
    }
}

pub struct Blockchain {
    storage: BlockStorage,
    config: ChainConfig,
    orphan_blocks: Vec<Orphan>,
}

/// The chain state as a mathematical value.
#[verifier::ext_equal]
pub struct ChainView {
    pub storage: StorageView,
    pub config: ChainConfig,
    pub orphans: Seq<OrphanView>,
}

pub open spec fn orphan_views(os: Seq<Orphan>) -> Seq<OrphanView> {
    Seq::new(os.len(), |i: int| os[i]@)
}

impl View for Blockchain {
    type V = ChainView;

    closed spec fn view(&self) -> ChainView {
        ChainView {
            storage: self.storage@,
            config: self.config,
            orphans: orphan_views(self.orphan_blocks@),
        }
    }
}

/// `os` holds an orphan under hash `h`.
pub open spec fn has_orphan(os: Seq<OrphanView>, h: Seq<u8>) -> bool {
    exists|k: int| 0 <= k < os.len() && #[trigger] os[k].hash == h
}

/// The orphans after holding `b` under `h`: an orphan with the same hash is
/// replaced in place, otherwise `b` is added at the end.
pub open spec fn orphan_insert(os: Seq<OrphanView>, h: Seq<u8>, b: BlockView) -> Seq<OrphanView> {
    if has_orphan(os, h) {
        os.update(choose|k: int| 0 <= k < os.len() && #[trigger] os[k].hash == h, OrphanView { hash: h, block: b })
    } else {
        os.push(OrphanView { hash: h, block: b })
    }
}

/// Every orphan in `later` was already one in `earlier`.
#[verifier::opaque]
pub open spec fn orphans_within(later: Seq<OrphanView>, earlier: Seq<OrphanView>) -> bool {
    forall|k: int| 0 <= k < later.len() ==> earlier.contains(#[trigger] later[k])
}

/// `b` is the genesis block of configuration `c`: zero parent and miner,
/// the genesis time, no vote, nonce 0, and the single genesis payload.
pub open spec fn is_genesis_of(b: BlockView, c: ChainConfig) -> bool {
    &&& b.header.previous_hash@ == zero_hash()
    &&& b.header.timestamp == c.genesis_timestamp
    &&& b.header.miner_address@ == zero_hash()
    &&& b.header.difficulty_vote == 0
    &&& b.header.payload_count == 1
    &&& b.header.merkle_root@ == merkle_root(seq![c.genesis_payload])
    &&& b.nonce == 0
    &&& b.payloads == seq![c.genesis_payload]
}

/// The height a block with parent `prev` is stored at: 0 for the zero
/// parent, one above a stored parent.
pub open spec fn height_above(s: StorageView, prev: Seq<u8>) -> u64 {
    if prev == zero_hash() {
        0
    } else {
        (s.height_of(prev).unwrap() + 1) as u64
    }
}

/// Orphan `o` can be adopted in `v`: its parent is stored.
pub open spec fn adoptable(v: ChainView, o: OrphanView) -> bool {
    v.storage.has(o.block.header.previous_hash@)
}

/// Every orphan of `v` that can be adopted is held under a hash in `hs`.
pub open spec fn adoptable_among(v: ChainView, hs: Seq<Seq<u8>>) -> bool {
    forall|k: int|
        0 <= k < v.orphans.len() && adoptable(v, #[trigger] v.orphans[k]) ==> hs.contains(v.orphans[k].hash)
}

/// Every orphan of `v` still waits for its parent.
pub open spec fn all_waiting(v: ChainView) -> bool {
    forall|k: int| 0 <= k < v.orphans.len() ==> !adoptable(v, #[trigger] v.orphans[k])
}

/// Every orphan of `later` that can be adopted was already an orphan of
/// `earlier` that could be adopted.
pub open spec fn no_new_adoptable(earlier: ChainView, later: ChainView) -> bool {
    forall|k: int|
        0 <= k < later.orphans.len() && adoptable(later, #[trigger] later.orphans[k])
            ==> earlier.orphans.contains(later.orphans[k]) && adoptable(earlier, later.orphans[k])
}

/// The work of the chain ending at `h`, capped at `u128::MAX`.
pub open spec fn capped_work(s: StorageView, h: Seq<u8>, g: Seq<u8>) -> nat {
    let w = chain_work(s, h, g).unwrap();
    if w > u128::MAX {
        u128::MAX as nat
    } else {
        w
    }
}

/// Entry `k` of `s` has the most (capped) chain work, and every later entry
/// strictly less.
#[verifier::opaque]
pub open spec fn last_best(s: StorageView, g: Seq<u8>, k: int) -> bool {
    &&& 0 <= k < s.entries.len()
    &&& forall|j: int|
        0 <= j < s.entries.len() ==> capped_work(s, #[trigger] s.entries[j].hash, g) <= capped_work(
            s,
            s.entries[k].hash,
            g,
        )
    &&& forall|j: int|
        k < j < s.entries.len() ==> capped_work(s, #[trigger] s.entries[j].hash, g) < capped_work(
            s,
            s.entries[k].hash,
            g,
        )
}

/// The tip of `s` is its last stored block with the most chain work.
pub open spec fn tip_is_best(s: StorageView, g: Seq<u8>) -> bool {
    exists|k: int| #[trigger] last_best(s, g, k) && s.tip_hash == s.entries[k].hash && s.tip_height == s.entries[k].height
}

/// Every block at least `PRUNE_DEPTH` below the tip has lost its payloads.
pub open spec fn pruned_below_tip(s: StorageView) -> bool {
    forall|k: int|
        0 <= k < s.entries.len() && #[trigger] s.entries[k].height < prune_height(s.tip_height)
            ==> s.entries[k].block.payloads.len() == 0
}

/// The hashes of the orphans in `os` whose parent is stored in `s`, in
/// pool order.
pub open spec fn adoptable_hashes(os: Seq<OrphanView>, s: StorageView) -> Seq<Seq<u8>>
    decreases os.len(),
{
    if os.len() == 0 {
        Seq::empty()
    } else {
        let rest = adoptable_hashes(os.drop_last(), s);
        if s.has(os.last().block.header.previous_hash@) {
            rest.push(os.last().hash)
        } else {
            rest
        }
    }
}

/// `mid` is `v` with the orphan held under `hash`, whose block is `o`,
/// taken out of the pool.
pub open spec fn taken(v: ChainView, hash: Seq<u8>, mid: ChainView, o: BlockView) -> bool {
    exists|i: int|
        0 <= i < v.orphans.len() && #[trigger] v.orphans[i].hash == hash && v.orphans[i].block == o && mid == (
        ChainView { orphans: v.orphans.remove(i), ..v })
}

/// Adopting the orphans held under `hs`, one by one, with clock reading
/// `now` takes chain `v` to chain `w`: each hash still in the pool has its
/// orphan taken out and processed as a block would be (stored if it
/// validates, dropped otherwise); a hash no longer in the pool is skipped.
/// `bound` is at least the number of orphans held throughout.
pub open spec fn adopts(v: ChainView, hs: Seq<Seq<u8>>, now: u64, bound: nat, w: ChainView) -> bool
    decreases bound, 0nat, hs.len(),
{
    if hs.len() == 0 {
        w == v
    } else if !has_orphan(v.orphans, hs[0]) {
        adopts(v, hs.drop_first(), now, bound, w)
    } else {
        exists|mid: ChainView, o: BlockView, step: (Result<bool, String>, ChainView)|
            #![trigger taken(v, hs[0], mid, o), step.1]
            taken(v, hs[0], mid, o) && mid.orphans.len() < bound && processed(mid, o, now, step.0, step.1)
                && step.1.orphans.len() <= bound && adopts(step.1, hs.drop_first(), now, bound, w)
    }
}

/// What processing block `b` with clock reading `now` does to chain `v`,
/// giving result `r` and chain `w`: a known block changes nothing; a block on
/// an unknown parent is held as an orphan; any other block is validated at
/// the target for one above its parent (height 0 on the zero parent), and
/// the validation error, if any, is returned with nothing changed; a valid
/// block on the zero parent other than the configured genesis is refused.
/// An accepted block is stored with its payloads at its height; then each
/// held orphan whose parent is now stored is taken out of the pool and
/// processed in its turn as any block is (stored if it validates, dropped
/// otherwise), until no orphan is left whose parent is stored; the last
/// stored block with the most chain work is the tip, and at every
/// thousandth height the blocks at least 1000 below the tip lose their
/// payloads. When no orphan waits on the block and none could be adopted
/// before, the new store is exactly the old one with the block added, the
/// tip moved and, at a thousandth height, pruned.
pub open spec fn processed(v: ChainView, b: BlockView, now: u64, r: Result<bool, String>, w: ChainView) -> bool
    decreases v.orphans.len(), 1nat, 0nat,
{
    let s = v.storage;
    let h = types::block_hash(b.header, b.nonce);
    let prev = b.header.previous_hash@;
    let height = height_above(s, prev);
    let target = difficulty_for(s, height, prev, v.config.genesis_difficulty.target@).unwrap();
    &&& w.config == v.config
    &&& s.kept_in(w.storage)
    &&& w.orphans.len() <= v.orphans.len() + 1
    &&& orphans_within(w.orphans, v.orphans.push(OrphanView { hash: h, block: b }))
    &&& no_new_adoptable(v, w)
    &&& heights_exact(s) ==> heights_exact(w.storage)
    &&& r == Ok::<bool, String>(true) ==> all_waiting(w)
    &&& s.has(h) ==> r == Ok::<bool, String>(false) && w == v
    &&& !s.has(h) && prev != zero_hash() && !s.has(prev) ==> r == Ok::<bool, String>(false) && w.storage == s
        && w.orphans == orphan_insert(v.orphans, h, b)
    &&& !s.has(h) && (prev == zero_hash() || s.has(prev)) ==> {
        &&& validation_result(b, s, target, now) matches Err(e) ==> w == v && (r matches Err(x) && x@ == e)
        &&& validation_result(b, s, target, now) is Ok && prev == zero_hash() && !is_genesis_of(b, v.config)
            ==> w == v && (r matches Err(e) && e@ == "not the genesis block"@)
        &&& validation_result(b, s, target, now) is Ok && (prev != zero_hash() || is_genesis_of(b, v.config)) ==> {
            &&& r == Ok::<bool, String>(true)
            &&& w.storage.has(h)
            &&& w.storage.height_of(h) == Some(height)
            &&& w.storage.block_of(h).unwrap().header == b.header
            &&& w.storage.block_of(h).unwrap().nonce == b.nonce
            &&& payloads_kept(w.storage, height, b.payloads, w.storage.block_of(h).unwrap().payloads)
            &&& w.orphans.len() <= v.orphans.len()
            &&& orphans_within(w.orphans, v.orphans)
            &&& tip_is_best(w.storage, v.config.genesis_difficulty.target@)
            &&& height % 1000 == 0 ==> pruned_below_tip(w.storage)
            &&& {
                let v1 = ChainView { storage: store_view(s, b, height), ..v };
                exists|v2: ChainView|
                    #![trigger v2.orphans]
                    adopts(v1, adoptable_hashes(v1.orphans, v1.storage), now, v1.orphans.len(), v2)
                        && w.orphans == v2.orphans && w.storage == {
                        let moved = StorageView {
                            tip_hash: w.storage.tip_hash,
                            tip_height: w.storage.tip_height,
                            ..v2.storage
                        };
                        if height % 1000 == 0 {
                            prune_view(moved)
                        } else {
                            moved
                        }
                    }
            }
            &&& all_waiting(v) && (forall|k: int|
                0 <= k < v.orphans.len() ==> (#[trigger] v.orphans[k]).block.header.previous_hash@ != h) ==> {
                &&& w.orphans == v.orphans
                &&& w.storage == {
                    let moved = StorageView {
                        tip_hash: w.storage.tip_hash,
                        tip_height: w.storage.tip_height,
                        ..store_view(s, b, height)
                    };
                    if height % 1000 == 0 {
                        prune_view(moved)
                    } else {
                        moved
                    }
                }
            }
        }
    }
}

impl ChainView {
    /// The store is well formed, linked and bounded; orphans are held under
    /// their own hashes, each hash once.
    pub open spec fn wf(self) -> bool {
        &&& self.storage.wf()
        &&& self.storage.linked()
        &&& self.storage.heights_bounded()
        &&& forall|i: int, j: int|
            0 <= i < self.orphans.len() && 0 <= j < self.orphans.len() && i != j
                ==> #[trigger] self.orphans[i].hash != #[trigger] self.orphans[j].hash
        &&& forall|i: int|
            0 <= i < self.orphans.len() ==> #[trigger] self.orphans[i].hash == types::block_hash(
                self.orphans[i].block.header,
                self.orphans[i].block.nonce,
            )
    }
}

pub proof fn lemma_orphans_within_refl(os: Seq<OrphanView>)
    ensures
        orphans_within(os, os),
{
    reveal(orphans_within);
    assert forall|k: int| 0 <= k < os.len() implies os.contains(#[trigger] os[k]) by {}
}

pub proof fn lemma_within_contains(a: Seq<OrphanView>, c: Seq<OrphanView>, x: OrphanView)
    requires
        orphans_within(a, c),
        a.contains(x),
    ensures
        c.contains(x),
{
    reveal(orphans_within);
    let k = choose|k: int| 0 <= k < a.len() && a[k] == x;
    assert(c.contains(a[k]));
}

pub proof fn lemma_orphans_within_trans(a: Seq<OrphanView>, b: Seq<OrphanView>, c: Seq<OrphanView>)
    requires
        orphans_within(a, b),
        orphans_within(b, c),
    ensures
        orphans_within(a, c),
{
    reveal(orphans_within);
    assert forall|k: int| 0 <= k < a.len() implies c.contains(#[trigger] a[k]) by {
        assert(b.contains(a[k]));
        let j = choose|j: int| 0 <= j < b.len() && b[j] == a[k];
        assert(c.contains(b[j]));
    }
}

pub proof fn lemma_orphans_within_push(a: Seq<OrphanView>, b: Seq<OrphanView>, o: OrphanView)
    requires
        orphans_within(a, b),
    ensures
        orphans_within(a, b.push(o)),
{
    reveal(orphans_within);
    assert forall|k: int| 0 <= k < a.len() implies b.push(o).contains(#[trigger] a[k]) by {
        assert(b.contains(a[k]));
        let j = choose|j: int| 0 <= j < b.len() && b[j] == a[k];
        assert(b.push(o)[j] == a[k]);
    }
}

/// Within `b` plus a member of `c`, with `b` within `c`, is within `c`.
pub proof fn lemma_orphans_within_push_member(
    a: Seq<OrphanView>,
    b: Seq<OrphanView>,
    o: OrphanView,
    c: Seq<OrphanView>,
)
    requires
        orphans_within(a, b.push(o)),
        orphans_within(b, c),
        c.contains(o),
    ensures
        orphans_within(a, c),
{
    reveal(orphans_within);
    assert forall|k: int| 0 <= k < a.len() implies c.contains(#[trigger] a[k]) by {
        assert(b.push(o).contains(a[k]));
        let j = choose|j: int| 0 <= j < b.push(o).len() && b.push(o)[j] == a[k];
        if j < b.len() {
            assert(b[j] == a[k]);
            assert(c.contains(b[j]));
        }
    }
}

pub proof fn lemma_orphan_insert_within(os: Seq<OrphanView>, h: Seq<u8>, b: BlockView)
    ensures
        orphans_within(orphan_insert(os, h, b), os.push(OrphanView { hash: h, block: b })),
        orphan_insert(os, h, b).len() <= os.len() + 1,
{
    reveal(orphans_within);
    let o = OrphanView { hash: h, block: b };
    let r = orphan_insert(os, h, b);
    if has_orphan(os, h) {
        let i = choose|k: int| 0 <= k < os.len() && #[trigger] os[k].hash == h;
        assert forall|k: int| 0 <= k < r.len() implies os.push(o).contains(#[trigger] r[k]) by {
            if k == i {
                assert(os.push(o)[os.len() as int] == o);
            } else {
                assert(os.push(o)[k] == r[k]);
            }
        }
    } else {
        assert forall|k: int| 0 <= k < r.len() implies os.push(o).contains(#[trigger] r[k]) by {
            assert(os.push(o)[k] == r[k]);
        }
    }
}

proof fn lemma_no_new_adoptable_refl(v: ChainView)
    ensures
        no_new_adoptable(v, v),
{
    assert forall|k: int| 0 <= k < v.orphans.len() && adoptable(v, #[trigger] v.orphans[k]) implies v.orphans.contains(
        v.orphans[k],
    ) by {}
}

/// Holding a block whose parent is not stored makes no orphan adoptable.
proof fn lemma_insert_waiting(v: ChainView, w: ChainView, h: Seq<u8>, b: BlockView)
    requires
        !v.storage.has(b.header.previous_hash@),
        w.storage == v.storage,
        w.orphans == orphan_insert(v.orphans, h, b),
    ensures
        no_new_adoptable(v, w),
{
    let os = v.orphans;
    let o = OrphanView { hash: h, block: b };
    assert forall|k: int| 0 <= k < w.orphans.len() && adoptable(w, #[trigger] w.orphans[k]) implies v.orphans.contains(
        w.orphans[k],
    ) && adoptable(v, w.orphans[k]) by {
        if has_orphan(os, h) {
            let i = choose|k: int| 0 <= k < os.len() && #[trigger] os[k].hash == h;
            if k != i {
                assert(w.orphans[k] == os[k]);
            }
        } else {
            if k < os.len() {
                assert(w.orphans[k] == os[k]);
            }
        }
    }
}

/// Taking the orphan held under `hs[0]` leaves every adoptable orphan under
/// a hash in the rest of `hs`.
proof fn lemma_adoptable_after_take(before: ChainView, mid: ChainView, hs: Seq<Seq<u8>>)
    requires
        hs.len() > 0,
        adoptable_among(before, hs),
        mid.storage == before.storage,
        orphans_within(mid.orphans, before.orphans),
        !has_orphan(mid.orphans, hs[0]),
    ensures
        adoptable_among(mid, hs.drop_first()),
{
    reveal(orphans_within);
    assert forall|k: int| 0 <= k < mid.orphans.len() && adoptable(mid, #[trigger] mid.orphans[k]) implies hs.drop_first().contains(
        mid.orphans[k].hash,
    ) by {
        let o = mid.orphans[k];
        assert(before.orphans.contains(o));
        let m = choose|m: int| 0 <= m < before.orphans.len() && before.orphans[m] == o;
        assert(adoptable(before, before.orphans[m]));
        assert(hs.contains(o.hash));
        let i = choose|i: int| 0 <= i < hs.len() && hs[i] == o.hash;
        assert(i != 0) by {
            if i == 0 {
                assert(mid.orphans[k].hash == hs[0]);
            }
        }
        assert(hs.drop_first()[i - 1] == o.hash);
    }
}

/// Processing that makes no orphan newly adoptable keeps every adoptable
/// orphan under a hash in `hs`.
proof fn lemma_adoptable_after_process(mid: ChainView, after: ChainView, hs: Seq<Seq<u8>>)
    requires
        adoptable_among(mid, hs),
        no_new_adoptable(mid, after),
    ensures
        adoptable_among(after, hs),
{
    assert forall|k: int| 0 <= k < after.orphans.len() && adoptable(after, #[trigger] after.orphans[k]) implies hs.contains(
        after.orphans[k].hash,
    ) by {
        let o = after.orphans[k];
        assert(mid.orphans.contains(o));
        let m = choose|m: int| 0 <= m < mid.orphans.len() && mid.orphans[m] == o;
        assert(adoptable(mid, mid.orphans[m]));
    }
}

/// Taking out the orphan under `hs[0]` and processing it is one step of
/// adopting the orphans under `hs`.
proof fn lemma_adopts_step(
    v: ChainView,
    mid: ChainView,
    o: BlockView,
    r: Result<bool, String>,
    after: ChainView,
    hs: Seq<Seq<u8>>,
    now: u64,
    bound: nat,
)
    requires
        hs.len() > 0,
        taken(v, hs[0], mid, o),
        mid.orphans.len() < bound,
        processed(mid, o, now, r, after),
        after.orphans.len() <= bound,
    ensures
        forall|w: ChainView|
            #[trigger] adopts(after, hs.drop_first(), now, bound, w) ==> adopts(v, hs, now, bound, w),
{
    let i = choose|i: int|
        0 <= i < v.orphans.len() && #[trigger] v.orphans[i].hash == hs[0] && v.orphans[i].block == o && mid == (
        ChainView { orphans: v.orphans.remove(i), ..v });
    assert(has_orphan(v.orphans, hs[0]));
    assert forall|w: ChainView| #[trigger] adopts(after, hs.drop_first(), now, bound, w) implies adopts(
        v,
        hs,
        now,
        bound,
        w,
    ) by {
        let step = (r, after);
        assert(taken(v, hs[0], mid, o));
        assert(step.1 == after);
        assert(processed(mid, o, now, step.0, step.1));
    }
}

/// A hash no longer in the pool is skipped when adopting.
proof fn lemma_adopts_skip(v: ChainView, hs: Seq<Seq<u8>>, now: u64, bound: nat)
    requires
        hs.len() > 0,
        !has_orphan(v.orphans, hs[0]),
    ensures
        forall|w: ChainView| #[trigger] adopts(v, hs.drop_first(), now, bound, w) ==> adopts(v, hs, now, bound, w),
{
}

/// `b` sits on `tip`: it carries the first `MAX_PAYLOADS_PER_BLOCK`
/// payloads, their count and Merkle root, the miner and vote, and nonce 0.
pub open spec fn built_on(b: BlockView, tip: Seq<u8>, miner: Address, vote: i8, payloads: Seq<Payload>) -> bool {
    let kept = if payloads.len() > MAX_PAYLOADS_PER_BLOCK {
        payloads.take(MAX_PAYLOADS_PER_BLOCK as int)
    } else {
        payloads
    };
    &&& b.header.previous_hash@ == tip
    &&& b.header.miner_address == miner
    &&& b.header.difficulty_vote == vote
    &&& b.header.payload_count == kept.len()
    &&& b.header.merkle_root@ == merkle_root(kept)
    &&& b.nonce == 0
    &&& b.payloads == kept
}

/// A block built on the tip carries a payload count and Merkle root that
/// match its payloads, and at most `MAX_PAYLOADS_PER_BLOCK` payloads, so it
/// passes the first two validation checks.
pub proof fn lemma_built_block_consistent(
    b: BlockView,
    tip: Seq<u8>,
    miner: Address,
    vote: i8,
    payloads: Seq<Payload>,
)
    requires
        built_on(b, tip, miner, vote, payloads),
    ensures
        b.header.payload_count == b.payloads.len(),
        b.payloads.len() <= MAX_PAYLOADS_PER_BLOCK,
        b.header.merkle_root@ == merkle_root(b.payloads),
{
}

/// The elements of `xs` before the first occurrence of `c` (all of them if
/// `c` does not occur).
pub open spec fn take_until(xs: Seq<Seq<u8>>, c: Seq<u8>) -> Seq<Seq<u8>>
    decreases xs.len(),
{
    if xs.len() == 0 || xs[0] == c {
        Seq::empty()
    } else {
        seq![xs[0]] + take_until(xs.drop_first(), c)
    }
}

/// The hashes of `xs` before the first one equal to `c`.
fn prefix_until(xs: &Vec<types::Hash>, c: &types::Hash) -> (out: Vec<types::Hash>)
    ensures
        types::hash_views(out@) == take_until(types::hash_views(xs@), c@),
{
    let ghost v = types::hash_views(xs@);
    let mut out: Vec<types::Hash> = Vec::new();
    let mut i: usize = 0;
    assert(v.skip(0) =~= v);
    assert(types::hash_views(out@) =~= Seq::<Seq<u8>>::empty());
    while i < xs.len()
        invariant
            i <= xs@.len(),
            v == types::hash_views(xs@),
            types::hash_views(out@) + take_until(v.skip(i as int), c@) == take_until(v, c@),
        decreases xs.len() - i,
    {
        assert(v.skip(i as int)[0] == xs@[i as int]@);
        assert(v.skip(i as int).drop_first() =~= v.skip(i as int + 1));
        if hash_eq(&xs[i], c) {
            assert(take_until(v.skip(i as int), c@) =~= Seq::<Seq<u8>>::empty());
            assert(types::hash_views(out@) + Seq::<Seq<u8>>::empty() =~= types::hash_views(out@));
            return out;
        }
        let ghost before = types::hash_views(out@);
        out.push(xs[i]);
        assert(types::hash_views(out@) =~= before.push(xs@[i as int]@));
        assert(before + take_until(v.skip(i as int), c@) =~= types::hash_views(out@) + take_until(
            v.skip(i as int + 1),
            c@,
        ));
        i = i + 1;
    }
    assert(v.skip(i as int) =~= Seq::<Seq<u8>>::empty());
    assert(types::hash_views(out@) + Seq::<Seq<u8>>::empty() =~= types::hash_views(out@));
    out
}

/// The hashes of all stored blocks, in insertion order.
pub open spec fn stored_hashes(s: StorageView) -> Seq<Seq<u8>> {
    Seq::new(s.entries.len(), |k: int| s.entries[k].hash)
}

/// `r` lists the blocks that a switch from the tip to the stored head with
/// the most work rolls back and applies.
pub open spec fn reorg_plan(s: StorageView, g: Seq<u8>, r: (Vec<types::Hash>, Vec<types::Hash>)) -> bool {
    let hs = stored_hashes(s);
    if hs.len() == 0 || hs[best_index(s, hs, g, hs.len())] == s.tip_hash {
        r.0@.len() == 0 && r.1@.len() == 0
    } else {
        let best = hs[best_index(s, hs, g, hs.len())];
        let old_branch = ancestors_of(s, s.tip_hash).unwrap();
        let new_branch = ancestors_of(s, best).unwrap();
        let common = match first_common(old_branch, new_branch) {
            Some(c) => c,
            None => zero_hash(),
        };
        &&& types::hash_views(r.0@) == take_until(old_branch, common).reverse()
        &&& types::hash_views(r.1@) == take_until(new_branch, common).reverse()
    }
}

fn reorg_of(storage: &BlockStorage, genesis_difficulty: &Difficulty) -> (r: (Vec<types::Hash>, Vec<types::Hash>))
    requires
        storage@.wf(),
        storage@.linked(),
        storage@.heights_bounded(),
        forall|k: int|
            0 <= k < storage@.entries.len() ==> chain_work(
                storage@,
                #[trigger] storage@.entries[k].hash,
                genesis_difficulty.target@,
            ).unwrap() <= u128::MAX,
    ensures
        reorg_plan(storage@, genesis_difficulty.target@, r),
{
    let ghost s = storage@;
    let ghost g = genesis_difficulty.target@;
    let (tip_hash, _) = storage.tip();
    let all_hashes = storage.all_hashes();
    let ghost hs = stored_hashes(s);
    assert(types::hash_views(all_hashes@) =~= hs);
    proof {
        lemma_walks_defined(s, g);
    }
    assert forall|i: int| 0 <= i < all_hashes@.len() implies chain_work(
        s,
        #[trigger] all_hashes@[i]@,
        g,
    ) matches Some(w) && w <= u128::MAX by {
        assert(all_hashes@[i]@ == s.entries[i].hash);
        assert(chain_work(s, s.entries[i].hash, g) is Some);
    }
    let best = match Consensus::select_best_chain(storage, all_hashes.as_slice(), genesis_difficulty) {
        Some(h) => h,
        None => {
            assert(hs.len() == 0);
            let r: (Vec<types::Hash>, Vec<types::Hash>) = (Vec::new(), Vec::new());
            assert(r.0@.len() == 0 && r.1@.len() == 0);
            return r;
        },
    };
    let ghost bi = best_index(s, hs, g, hs.len());
    assert(hs.len() > 0);
    assert(best@ == hs[bi]) by {
        lemma_best_index_bounds(s, hs, g, hs.len());
        assert(types::hash_views(all_hashes@)[bi] == all_hashes@[bi]@);
    }
    if hash_eq(&best, &tip_hash) {
        let r: (Vec<types::Hash>, Vec<types::Hash>) = (Vec::new(), Vec::new());
        assert(r.0@.len() == 0 && r.1@.len() == 0);
        return r;
    }
    reorg_branches(storage, &tip_hash, &best)
}

/// The branches above the first common ancestor of `tip` and `best`, each
/// oldest first.
fn reorg_branches(storage: &BlockStorage, tip: &types::Hash, best: &types::Hash) -> (r: (
    Vec<types::Hash>,
    Vec<types::Hash>,
))
    requires
        storage@.wf(),
        storage@.linked(),
        storage@.heights_bounded(),
    ensures
        ({
            let s = storage@;
            let old_branch = ancestors_of(s, tip@).unwrap();
            let new_branch = ancestors_of(s, best@).unwrap();
            let common = match first_common(old_branch, new_branch) {
                Some(c) => c,
                None => zero_hash(),
            };
            &&& types::hash_views(r.0@) == take_until(old_branch, common).reverse()
            &&& types::hash_views(r.1@) == take_until(new_branch, common).reverse()
        }),
{
    proof {
        lemma_walks_defined(storage@, seq![]);
        assert(ancestors_of(storage@, tip@) is Some);
        assert(ancestors_of(storage@, best@) is Some);
    }
    let zero: types::Hash = [0u8; 32];
    assert(zero@ =~= zero_hash());
    let common = match Consensus::find_common_ancestor(storage, tip, best) {
        Some(c) => c,
        None => zero,
    };
    let old_branch = Consensus::get_ancestors(storage, tip);
    let new_branch = Consensus::get_ancestors(storage, best);
    let old_to_apply = reversed(&prefix_until(&old_branch, &common));
    let new_to_apply = reversed(&prefix_until(&new_branch, &common));
    (old_to_apply, new_to_apply)
}

/// The hashes of `xs` in reverse order.
fn reversed(xs: &Vec<types::Hash>) -> (out: Vec<types::Hash>)
    ensures
        types::hash_views(out@) == types::hash_views(xs@).reverse(),
{
    let n = xs.len();
    let mut out: Vec<types::Hash> = Vec::new();
    let mut i: usize = 0;
    while i < n
        invariant
            n == xs@.len(),
            i <= n,
            out@.len() == i,
            forall|k: int| 0 <= k < i ==> #[trigger] out@[k] == xs@[n - 1 - k],
        decreases n - i,
    {
        out.push(xs[n - 1 - i]);
        i = i + 1;
    }
    assert(types::hash_views(out@) =~= types::hash_views(xs@).reverse());
    out
}

/// The work of the chain ending at `tip_hash`, capped at `u128::MAX`.
fn capped_chain_work(storage: &BlockStorage, tip_hash: &types::Hash, genesis_difficulty: &Difficulty) -> (w: u128)
    requires
        storage@.wf(),
        chain_work(storage@, tip_hash@, genesis_difficulty.target@) is Some,
    ensures
        w == capped_work(storage@, tip_hash@, genesis_difficulty.target@),
{
    let ghost s = storage@;
    let ghost g = genesis_difficulty.target@;
    let ghost total = chain_work(s, tip_hash@, g).unwrap();
    let ghost mut fuel = walk_fuel(s);
    let ghost mut done: nat = 0;
    let mut work: u128 = 0;
    let mut current: types::Hash = *tip_hash;
    loop
        invariant_except_break
            s == storage@,
            g == genesis_difficulty.target@,
            s.wf(),
            chain_work_fuel(s, current@, g, fuel) matches Some(rest) && done + rest == total,
            work == (if done > u128::MAX { u128::MAX as nat } else { done }),
        ensures
            work == (if total > u128::MAX { u128::MAX as nat } else { total }),
        decreases fuel,
    {
        let height = match storage.height_of(&current) {
            Some(h) => h,
            None => break,
        };
        let diff = Consensus::difficulty_at_height(storage, height, genesis_difficulty);
        let bw = Consensus::block_work(&diff);
        work = work.saturating_add(bw);
        proof {
            done = done + bw as nat;
        }
        if height == 0 {
            break;
        }
        let header = match storage.get_header(&current) {
            Some(h) => h,
            None => break,
        };
        current = header.previous_hash;
        proof {
            fuel = (fuel - 1) as nat;
        }
    }
    work
}

/// The hash and height of the last stored block with the most (capped)
/// chain work.
fn best_tip(storage: &BlockStorage, genesis_difficulty: &Difficulty) -> (r: (types::Hash, u64))
    requires
        storage@.wf(),
        storage@.entries.len() > 0,
        forall|h: Seq<u8>| #[trigger] chain_work(storage@, h, genesis_difficulty.target@) is Some,
    ensures
        exists|k: int|
            #[trigger] last_best(storage@, genesis_difficulty.target@, k) && r.0@ == storage@.entries[k].hash
                && r.1 == storage@.entries[k].height,
{
    let ghost s = storage@;
    let ghost g = genesis_difficulty.target@;
    let hashes = storage.all_hashes();
    assert(hashes@[0]@ == s.entries[0].hash);
    let mut best: usize = 0;
    let mut best_work = capped_chain_work(storage, &hashes[0], genesis_difficulty);
    let mut i: usize = 1;
    while i < hashes.len()
        invariant
            s == storage@,
            g == genesis_difficulty.target@,
            s.wf(),
            forall|h: Seq<u8>| #[trigger] chain_work(s, h, g) is Some,
            hashes@.len() == s.entries.len(),
            forall|j: int| 0 <= j < hashes@.len() ==> #[trigger] hashes@[j]@ == s.entries[j].hash,
            1 <= i <= hashes@.len(),
            best < i,
            best_work == capped_work(s, s.entries[best as int].hash, g),
            forall|j: int| 0 <= j < i ==> capped_work(s, #[trigger] s.entries[j].hash, g) <= best_work,
            forall|j: int| best < j < i ==> capped_work(s, #[trigger] s.entries[j].hash, g) < best_work,
        decreases hashes.len() - i,
    {
        assert(hashes@[i as int]@ == s.entries[i as int].hash);
        let w = capped_chain_work(storage, &hashes[i], genesis_difficulty);
        if w >= best_work {
            best = i;
            best_work = w;
        }
        i = i + 1;
    }
    assert(hashes@[best as int]@ == s.entries[best as int].hash);
    let height = match storage.height_of(&hashes[best]) {
        Some(h) => h,
        None => 0,
    };
    proof {
        lemma_index_of(s, s.entries[best as int].hash, best as int);
    }
    assert(last_best(s, g, best as int)) by {
        reveal(last_best);
    }
    (hashes[best], height)
}

/// Whether two payloads hold the same bytes.
fn payload_eq(a: &Payload, b: &Payload) -> (r: bool)
    ensures
        r == (a.0@ == b.0@),
{
    let mut i: usize = 0;
    while i < 256
        invariant
            i <= 256,
            forall|j: int| 0 <= j < i ==> a.0@[j] == b.0@[j],
        decreases 256 - i,
    {
        if a.0[i] != b.0[i] {
            return false;
        }
        i = i + 1;
    }
    assert(a.0@ =~= b.0@);
    true
}

proof fn lemma_prune_keeps_exact(s: StorageView)
    requires
        s.wf(),
    ensures
        heights_exact(s) ==> heights_exact(prune_view(s)),
{
    if heights_exact(s) {
        assert(same_but_payloads(s, prune_view(s)));
        lemma_same_keeps_exact(s, prune_view(s));
    }
}

/// Moving the tip to a last entry with the most chain work keeps the store
/// as it was and makes its tip the best.
proof fn lemma_tip_moved_to_best(s: StorageView, t: StorageView, g: Seq<u8>, k: int)
    requires
        s.wf(),
        s.linked(),
        s.heights_bounded(),
        last_best(s, g, k),
        t.entries == s.entries,
        t.tip_hash == s.entries[k].hash,
        t.tip_height == s.entries[k].height,
    ensures
        t.wf(),
        t.linked(),
        t.heights_bounded(),
        s.kept_in(t),
        tip_is_best(t, g),
{
    reveal(last_best);
    assert(same_but_payloads(s, t));
    lemma_same_but_payloads(s, t);
    lemma_chain_work_same(s, t, g);
    assert forall|j: int| 0 <= j < t.entries.len() implies capped_work(t, #[trigger] t.entries[j].hash, g) == capped_work(
        s,
        s.entries[j].hash,
        g,
    ) by {}
    assert(last_best(t, g, k));
}

/// Pruning keeps the tip the stored block with the most chain work, and
/// clears the payloads of every block at least `PRUNE_DEPTH` below it.
pub proof fn lemma_prune_keeps_best(s: StorageView, g: Seq<u8>)
    requires
        s.wf(),
        tip_is_best(s, g),
    ensures
        tip_is_best(prune_view(s), g),
        pruned_below_tip(prune_view(s)),
{
    reveal(last_best);
    let t = prune_view(s);
    assert(same_but_payloads(s, t));
    lemma_same_but_payloads(s, t);
    lemma_chain_work_same(s, t, g);
    let k = choose|k: int| #[trigger] last_best(s, g, k) && s.tip_hash == s.entries[k].hash && s.tip_height == s.entries[k].height;
    assert forall|j: int| 0 <= j < t.entries.len() implies capped_work(t, #[trigger] t.entries[j].hash, g) == capped_work(
        s,
        s.entries[j].hash,
        g,
    ) by {}
    assert(last_best(t, g, k));
}

impl Blockchain {
    /// A chain over `storage` with no orphans. Processing blocks on it asks
    /// for a linked store whose heights are below its size, as every store
    /// that this library fills is.
    pub fn new(storage: BlockStorage, config: ChainConfig) -> (c: Blockchain)
        requires
            storage@.wf(),
        ensures
            c@.wf() == (storage@.linked() && storage@.heights_bounded()),
            c@.storage == storage@,
            c@.config == config,
            c@.orphans.len() == 0,
    {
        let c = Blockchain { storage, config, orphan_blocks: Vec::new() };
        assert(c@.orphans =~= Seq::<OrphanView>::empty());
        c
    }

    /// A chain over an opened store: when the store's tip is at height 0,
    /// the genesis block of `config` is stored at height 0 and becomes the tip.
    pub fn open(storage: BlockStorage, config: ChainConfig) -> (c: Blockchain)
        requires
            storage@.wf(),
        ensures
            c@.storage.wf(),
            storage@.linked() && storage@.heights_bounded() ==> c@.wf(),
            c@.config == config,
            c@.orphans.len() == 0,
            storage@.tip_height != 0 ==> c@.storage == storage@,
            storage@.tip_height == 0 ==> exists|g: BlockView|
                is_genesis_of(g, config) && c@.storage == store_view(storage@, g, 0),
    {
        let mut chain = Self::new(storage, config);
        if chain.storage.tip().1 == 0 {
            chain.create_genesis();
        }
        chain
    }

    /// Stores the genesis block of the configuration at height 0.
    fn create_genesis(&mut self)
        requires
            old(self)@.storage.wf(),
        ensures
            final(self)@.storage.wf(),
            old(self)@.wf() ==> final(self)@.wf(),
            final(self)@.config == old(self)@.config,
            final(self)@.orphans == old(self)@.orphans,
            exists|g: BlockView|
                is_genesis_of(g, old(self)@.config) && final(self)@.storage == store_view(
                    old(self)@.storage,
                    g,
                    0,
                ),
    {
        let payload = self.config.genesis_payload;
        let mut payloads: Vec<Payload> = Vec::new();
        payloads.push(payload);
        let merkle_root = Block::compute_merkle_root(payloads.as_slice());
        let header = BlockHeader {
            previous_hash: [0u8; 32],
            timestamp: self.config.genesis_timestamp,
            miner_address: [0u8; 32],
            difficulty_vote: 0,
            payload_count: 1,
            merkle_root,
        };
        let genesis = Block { header, nonce: 0, payloads };
        assert(genesis.header.previous_hash@ =~= zero_hash());
        assert(genesis.header.miner_address@ =~= zero_hash());
        assert(genesis@.payloads =~= seq![self.config.genesis_payload]);
        proof {
            if old(self)@.wf() {
                lemma_store_keeps_linked(self.storage@, genesis@, 0);
            }
        }
        self.storage.store_block(&genesis, 0);
        assert(is_genesis_of(genesis@, old(self)@.config));
        assert(self@.storage == store_view(old(self)@.storage, genesis@, 0));
        assert(self@.orphans == old(self)@.orphans);
    }

    /// Holds `block` as an orphan under `hash`, replacing an orphan with that hash.
    fn insert_orphan(&mut self, hash: types::Hash, block: Block)
        requires
            old(self)@.wf(),
            hash@ == types::block_hash(block.header, block.nonce),
        ensures
            final(self)@.wf(),
            final(self)@.storage == old(self)@.storage,
            final(self)@.config == old(self)@.config,
            final(self)@.orphans == orphan_insert(old(self)@.orphans, hash@, block@),
    {
        let ghost os = old(self)@.orphans;
        let ghost o = OrphanView { hash: hash@, block: block@ };
        let mut i: usize = 0;
        while i < self.orphan_blocks.len()
            invariant
                i <= self.orphan_blocks@.len(),
                self == old(self),
                self@.wf(),
                os == self@.orphans,
                os == old(self)@.orphans,
                o == (OrphanView { hash: hash@, block: block@ }),
                hash@ == types::block_hash(block.header, block.nonce),
                forall|j: int| 0 <= j < i ==> #[trigger] os[j].hash != hash@,
            decreases self.orphan_blocks.len() - i,
        {
            if hash_eq(&self.orphan_blocks[i].hash, &hash) {
                assert(os[i as int].hash == hash@);
                assert(has_orphan(os, hash@));
                let ghost k = choose|k: int| 0 <= k < os.len() && #[trigger] os[k].hash == hash@;
                assert(k == i) by {
                    if k != i {
                        assert(os[k].hash != os[i as int].hash);
                    }
                }
                let ghost before = self.orphan_blocks@;
                let orphan = Orphan { hash, block };
                assert(orphan@ == o);
                self.orphan_blocks.set(i, orphan);
                assert(self.orphan_blocks@ == before.update(i as int, orphan));
                assert forall|j: int| 0 <= j < os.len() implies #[trigger] self@.orphans[j] == os.update(
                    i as int,
                    o,
                )[j] by {
                    if j != i {
                        assert(self.orphan_blocks@[j] == before[j]);
                    }
                }
                assert(self@.orphans =~= os.update(i as int, o));
                return ;
            }
            i = i + 1;
        }
        assert(!has_orphan(os, hash@));
        self.orphan_blocks.push(Orphan { hash, block });
        assert(self@.orphans =~= os.push(o));
    }

    /// Removes and returns the orphan held under `hash`.
    fn take_orphan(&mut self, hash: &types::Hash) -> (r: Option<Block>)
        requires
            old(self)@.wf(),
        ensures
            final(self)@.wf(),
            final(self)@.storage == old(self)@.storage,
            final(self)@.config == old(self)@.config,
            orphans_within(final(self)@.orphans, old(self)@.orphans),
            r is None ==> final(self)@ == old(self)@ && !has_orphan(old(self)@.orphans, hash@),
            r matches Some(b) ==> final(self)@.orphans.len() + 1 == old(self)@.orphans.len()
                && old(self)@.orphans.contains(
                OrphanView { hash: types::block_hash(b.header, b.nonce), block: b@ },
            ) && types::block_hash(b.header, b.nonce) == hash@,
            r matches Some(b) ==> taken(old(self)@, hash@, final(self)@, b@),
            !has_orphan(final(self)@.orphans, hash@),
    {
        let ghost os = old(self)@.orphans;
        reveal(orphans_within);
        let mut i: usize = 0;
        while i < self.orphan_blocks.len()
            invariant
                i <= self.orphan_blocks@.len(),
                self == old(self),
                self@.wf(),
                os == self@.orphans,
                forall|j: int| 0 <= j < i ==> #[trigger] os[j].hash != hash@,
            decreases self.orphan_blocks.len() - i,
        {
            if hash_eq(&self.orphan_blocks[i].hash, hash) {
                let ghost o = os[i as int];
                let orphan = self.orphan_blocks.remove(i);
                assert(self@.orphans =~= os.remove(i as int));
                assert(orphan@ == o);
                assert(os.contains(o));
                assert(o.hash == types::block_hash(o.block.header, o.block.nonce));
                assert(o == OrphanView { hash: types::block_hash(orphan.block.header, orphan.block.nonce), block: orphan.block@ });
                assert forall|k: int| 0 <= k < self@.orphans.len() implies os.contains(
                    #[trigger] self@.orphans[k],
                ) && self@.orphans[k].hash != hash@ by {
                    if k < i {
                        assert(self@.orphans[k] == os[k]);
                        assert(os[k].hash != os[i as int].hash);
                    } else {
                        assert(self@.orphans[k] == os[k + 1]);
                        assert(os[k + 1].hash != os[i as int].hash);
                    }
                }
                proof {
                    reveal(orphans_within);
                    assert(self@ =~= ChainView { orphans: os.remove(i as int), ..old(self)@ });
                    assert(os[i as int].hash == hash@);
                    assert(taken(old(self)@, hash@, self@, orphan.block@));
                }
                return Some(orphan.block);
            }
            i = i + 1;
        }
        proof {
            lemma_orphans_within_refl(os);
        }
        None
    }

    /// Processes a block with the clock reading `now` (Unix seconds); see
    /// `processed` for what each outcome means.
    #[verifier::spinoff_prover]
    pub fn process_block_at(&mut self, block: Block, now: u64) -> (r: Result<bool, String>)
        requires
            old(self)@.wf(),
        ensures
            final(self)@.wf(),
            processed(old(self)@, block@, now, r, final(self)@),
        decreases old(self)@.orphans.len(), 2int,
    {
        let ghost s0 = self@.storage;
        let ghost os0 = self@.orphans;
        let ghost b0 = block@;
        let hash = block.hash();
        if self.storage.has_block(&hash) {
            proof {
                lemma_no_new_adoptable_refl(old(self)@);
                lemma_kept_refl(s0);
                lemma_orphans_within_refl(os0);
                lemma_orphans_within_push(os0, os0, OrphanView { hash: hash@, block: b0 });
            }
            return Ok(false);
        }
        let parent_hash = block.header.previous_hash;
        let parent_is_zero = is_zero_hash(&parent_hash);
        let parent_height = if parent_is_zero {
            None
        } else {
            self.storage.height_of(&parent_hash)
        };
        if !parent_is_zero && parent_height.is_none() {
            self.insert_orphan(hash, block);
            proof {
                lemma_insert_waiting(old(self)@, self@, hash@, b0);
                lemma_kept_refl(s0);
                lemma_orphan_insert_within(os0, hash@, b0);
            }
            return Ok(false);
        }
        let n = self.storage.len();
        let height = match parent_height {
            Some(h) => {
                proof {
                    let j = s0.index_of(parent_hash@);
                    assert(s0.entries[j].height < s0.entries.len());
                }
                h + 1
            },
            None => 0,
        };
        proof {
            lemma_difficulty_defined(s0, self@.config.genesis_difficulty.target@);
            assert(difficulty_for(s0, height, parent_hash@, self@.config.genesis_difficulty.target@) is Some);
        }
        let difficulty = Consensus::compute_difficulty(
            &self.storage,
            height,
            &parent_hash,
            &self.config.genesis_difficulty,
        );
        let ghost target = difficulty_for(s0, height, parent_hash@, self@.config.genesis_difficulty.target@).unwrap();
        proof {
            assert(height == height_above(s0, parent_hash@));
        }
        let verdict = Consensus::validate_block_at(&block, &self.storage, &difficulty, now);
        match verdict {
            Err(e) => {
                proof {
                    lemma_no_new_adoptable_refl(old(self)@);
                    lemma_kept_refl(s0);
                    lemma_orphans_within_refl(os0);
                    lemma_orphans_within_push(os0, os0, OrphanView { hash: hash@, block: b0 });
                    assert(self@ =~= old(self)@);
                    assert(validation_result(b0, s0, target, now) == Err::<(), Seq<char>>(e@));
                }
                return Err(e);
            },
            Ok(()) => {
                proof {
                    assert(validation_result(b0, s0, target, now) == Ok::<(), Seq<char>>(()));
                }
            },
        }
        if parent_is_zero && !self.is_configured_genesis(&block) {
            proof {
                lemma_no_new_adoptable_refl(old(self)@);
                lemma_kept_refl(s0);
                lemma_orphans_within_refl(os0);
                lemma_orphans_within_push(os0, os0, OrphanView { hash: hash@, block: b0 });
                assert(self@ =~= old(self)@);
            }
            return Err("not the genesis block".to_owned());
        }
        proof {
            lemma_store_keeps_linked(s0, b0, height);
            lemma_store_then_get(s0, b0, height);
            if heights_exact(s0) {
                lemma_store_keeps_exact(s0, b0, height);
            }
        }
        self.storage.store_block(&block, height);
        let ghost s1 = self@.storage;
        proof {
            let i = s1.index_of(hash@);
            assert(s1.entries[i].hash == hash@);
            lemma_orphans_within_refl(os0);
        }
        proof {
            if all_waiting(old(self)@) && (forall|k: int|
                0 <= k < os0.len() ==> (#[trigger] os0[k]).block.header.previous_hash@ != hash@) {
                assert forall|k: int| 0 <= k < self@.orphans.len() implies !adoptable(self@, #[trigger] self@.orphans[k]) by {
                    assert(self@.orphans[k] == os0[k]);
                    assert(!adoptable(old(self)@, os0[k]));
                }
            }
        }
        proof {
            assert(self@ =~= ChainView { storage: store_view(s0, b0, height), ..old(self)@ });
        }
        let ghost v1 = self@;
        self.settle(now, height % 1000 == 0);
        proof {
            let v2 = choose|v2: ChainView|
                #[trigger] adopts(v1, adoptable_hashes(v1.orphans, v1.storage), now, v1.orphans.len(), v2)
                    && self@.orphans == v2.orphans && self@.storage == {
                    let moved = StorageView {
                        tip_hash: self@.storage.tip_hash,
                        tip_height: self@.storage.tip_height,
                        ..v2.storage
                    };
                    if height % 1000 == 0 {
                        prune_view(moved)
                    } else {
                        moved
                    }
                };
            assert(v2.orphans == self@.orphans);
        }
        proof {
            let s3 = self@.storage;
            lemma_kept_trans(s0, s1, s3);
            lemma_kept_entry(s1, s3, hash@);
            assert(s1.block_of(hash@) == Some(b0));
            assert(s1.height_of(hash@) == Some(height));
            lemma_orphans_within_push(self@.orphans, os0, OrphanView { hash: hash@, block: b0 });
        }
        Ok(true)
    }

    /// Processes a block under the current clock reading: a known block is
    /// ignored (`Ok(false)`); a block whose parent is unknown is held as an
    /// orphan (`Ok(false)`); any other block must pass validation at the
    /// difficulty for its height, else the validation error is returned and
    /// nothing changes; a valid block on the zero parent other than the
    /// configured genesis is refused. A valid block is stored one above its parent, the orphans it
    /// unblocks are processed in turn, the stored block with the most
    /// cumulative work becomes the tip, and at every thousandth height the
    /// store is pruned (`Ok(true)`).
    pub fn process_block(&mut self, block: Block) -> (r: Result<bool, String>)
        requires
            old(self)@.wf(),
        ensures
            final(self)@.wf(),
            exists|now: u64| processed(old(self)@, block@, now, r, final(self)@),
    {
        let now = unix_time_secs();
        self.process_block_at(block, now)
    }

    /// Whether `block` is the genesis block of the configuration.
    fn is_configured_genesis(&self, block: &Block) -> (r: bool)
        ensures
            r == is_genesis_of(block@, self@.config),
    {
        if !is_zero_hash(&block.header.previous_hash) || block.header.timestamp != self.config.genesis_timestamp
            || !is_zero_hash(&block.header.miner_address) || block.header.difficulty_vote != 0
            || block.header.payload_count != 1 || block.nonce != 0 || block.payloads.len() != 1 {
            return false;
        }
        if !payload_eq(&block.payloads[0], &self.config.genesis_payload) {
            assert(block@.payloads[0] != self.config.genesis_payload);
            return false;
        }
        assert(block@.payloads[0].0 =~= self.config.genesis_payload.0);
        assert(block@.payloads =~= seq![self.config.genesis_payload]);
        let root = Block::compute_merkle_root(block.payloads.as_slice());
        hash_eq(&block.header.merkle_root, &root)
    }

    /// Makes the stored block with the most chain work the tip.
    #[verifier::spinoff_prover]
    #[verifier::rlimit(50)]
    fn choose_tip(&mut self)
        requires
            old(self)@.wf(),
            old(self)@.storage.entries.len() > 0,
        ensures
            final(self)@.wf(),
            final(self)@.config == old(self)@.config,
            final(self)@.orphans == old(self)@.orphans,
            final(self)@.storage.entries == old(self)@.storage.entries,
            old(self)@.storage.kept_in(final(self)@.storage),
            tip_is_best(final(self)@.storage, final(self)@.config.genesis_difficulty.target@),
            heights_exact(old(self)@.storage) ==> heights_exact(final(self)@.storage),
    {
        let ghost s2 = self@.storage;
        let ghost g = self@.config.genesis_difficulty.target@;
        proof {
            lemma_walks_defined(s2, g);
        }
        let (best_hash, best_height) = best_tip(&self.storage, &self.config.genesis_difficulty);
        self.storage.set_tip(&best_hash, best_height);
        proof {
            let k = choose|k: int|
                #[trigger] last_best(s2, g, k) && best_hash@ == s2.entries[k].hash && best_height == s2.entries[k].height;
            lemma_tip_moved_to_best(s2, self@.storage, g, k);
            if heights_exact(s2) {
                assert(same_but_payloads(s2, self@.storage));
                lemma_same_keeps_exact(s2, self@.storage);
            }
            assert(self@.orphans == old(self)@.orphans);
            assert(self@.storage.wf() && self@.storage.linked() && self@.storage.heights_bounded());
        }
    }

    /// After a block is stored: adopts the orphans it unblocks, makes the
    /// stored block with the most chain work the tip, and prunes when
    /// `prune_now`.
    #[verifier::spinoff_prover]
    fn settle(&mut self, now: u64, prune_now: bool)
        requires
            old(self)@.wf(),
            old(self)@.storage.entries.len() > 0,
        ensures
            final(self)@.wf(),
            final(self)@.config == old(self)@.config,
            old(self)@.storage.kept_in(final(self)@.storage),
            final(self)@.orphans.len() <= old(self)@.orphans.len(),
            orphans_within(final(self)@.orphans, old(self)@.orphans),
            all_waiting(final(self)@),
            tip_is_best(final(self)@.storage, final(self)@.config.genesis_difficulty.target@),
            prune_now ==> pruned_below_tip(final(self)@.storage),
            heights_exact(old(self)@.storage) ==> heights_exact(final(self)@.storage),
            exists|v2: ChainView|
                #[trigger] adopts(
                    old(self)@,
                    adoptable_hashes(old(self)@.orphans, old(self)@.storage),
                    now,
                    old(self)@.orphans.len(),
                    v2,
                ) && final(self)@.orphans == v2.orphans && final(self)@.storage == {
                    let moved = StorageView {
                        tip_hash: final(self)@.storage.tip_hash,
                        tip_height: final(self)@.storage.tip_height,
                        ..v2.storage
                    };
                    if prune_now {
                        prune_view(moved)
                    } else {
                        moved
                    }
                },
            all_waiting(old(self)@) ==> final(self)@.orphans == old(self)@.orphans && final(self)@.storage == {
                let moved = StorageView {
                    tip_hash: final(self)@.storage.tip_hash,
                    tip_height: final(self)@.storage.tip_height,
                    ..old(self)@.storage
                };
                if prune_now {
                    prune_view(moved)
                } else {
                    moved
                }
            },
        decreases old(self)@.orphans.len(), 1int,
    {
        let ghost s1 = self@.storage;
        self.try_adopt_orphans(now);
        let ghost s2 = self@.storage;
        let ghost va = self@;
        proof {
            assert(s1.has(s1.entries[0].hash));
            lemma_kept_entry(s1, s2, s1.entries[0].hash);
        }
        self.choose_tip();
        let ghost v2 = self@;
        let ghost s2b = self@.storage;

        self.prune_when(prune_now);
        proof {
            let moved = StorageView {
                tip_hash: self@.storage.tip_hash,
                tip_height: self@.storage.tip_height,
                ..va.storage
            };
            assert(s2b.tip_hash == self@.storage.tip_hash && s2b.tip_height == self@.storage.tip_height);
            assert(moved =~= s2b);
            assert(adopts(
                old(self)@,
                adoptable_hashes(old(self)@.orphans, old(self)@.storage),
                now,
                old(self)@.orphans.len(),
                va,
            ));
            lemma_kept_trans(s1, s2, s2b);
            lemma_kept_trans(s1, s2b, self@.storage);
            assert forall|k: int| 0 <= k < self@.orphans.len() implies !adoptable(self@, #[trigger] self@.orphans[k]) by {
                assert(self@.orphans[k] == v2.orphans[k]);
                assert(!adoptable(v2, v2.orphans[k]));
                assert(self@.storage.has(v2.orphans[k].block.header.previous_hash@) == v2.storage.has(
                    v2.orphans[k].block.header.previous_hash@,
                ));
            }
        }
    }

    /// Prunes the store when `prune_now`.
    #[verifier::spinoff_prover]
    #[verifier::rlimit(60)]
    fn prune_when(&mut self, prune_now: bool)
        requires
            old(self)@.wf(),
            tip_is_best(old(self)@.storage, old(self)@.config.genesis_difficulty.target@),
        ensures
            final(self)@.wf(),
            final(self)@.config == old(self)@.config,
            final(self)@.orphans == old(self)@.orphans,
            old(self)@.storage.kept_in(final(self)@.storage),
            forall|x: Seq<u8>| #[trigger] final(self)@.storage.has(x) == old(self)@.storage.has(x),
            tip_is_best(final(self)@.storage, final(self)@.config.genesis_difficulty.target@),
            prune_now ==> pruned_below_tip(final(self)@.storage),
            heights_exact(old(self)@.storage) ==> heights_exact(final(self)@.storage),
            final(self)@.storage == if prune_now {
                prune_view(old(self)@.storage)
            } else {
                old(self)@.storage
            },
    {
        let ghost s = self@.storage;
        let ghost g = self@.config.genesis_difficulty.target@;
        proof {
            let k = choose|k: int|
                #[trigger] last_best(s, g, k) && s.tip_hash == s.entries[k].hash && s.tip_height == s.entries[k].height;
            reveal(last_best);
            assert(s.entries[k].height >= s.tip_height);
            lemma_prune_keeps(s);
            lemma_prune_keeps_best(s, g);
            lemma_prune_keeps_exact(s);
            lemma_kept_refl(s);
        }
        if prune_now {
            self.storage.prune();
        }
        assert(self@.orphans == old(self)@.orphans);
    }

    /// Processes, one by one, the orphans whose parent is stored; each is
    /// removed from the orphans first and its result is ignored.
    fn try_adopt_orphans(&mut self, now: u64)
        requires
            old(self)@.wf(),
        ensures
            final(self)@.wf(),
            final(self)@.config == old(self)@.config,
            old(self)@.storage.kept_in(final(self)@.storage),
            final(self)@.orphans.len() <= old(self)@.orphans.len(),
            orphans_within(final(self)@.orphans, old(self)@.orphans),
            all_waiting(final(self)@),
            all_waiting(old(self)@) ==> final(self)@ == old(self)@,
            heights_exact(old(self)@.storage) ==> heights_exact(final(self)@.storage),
            adopts(
                old(self)@,
                adoptable_hashes(old(self)@.orphans, old(self)@.storage),
                now,
                old(self)@.orphans.len(),
                final(self)@,
            ),
        decreases old(self)@.orphans.len(), 0int,
    {
        let mut adopted: Vec<types::Hash> = Vec::new();
        let mut i: usize = 0;
        while i < self.orphan_blocks.len()
            invariant
                i <= self.orphan_blocks@.len(),
                self == old(self),
                self@.wf(),
                forall|k: int|
                    0 <= k < i && adoptable(self@, #[trigger] self@.orphans[k]) ==> types::hash_views(
                        adopted@,
                    ).contains(self@.orphans[k].hash),
                all_waiting(self@) ==> adopted@.len() == 0,
                types::hash_views(adopted@) == adoptable_hashes(self@.orphans.take(i as int), self@.storage),
            decreases self.orphan_blocks.len() - i,
        {
            assert(self@.orphans.take(i as int + 1).drop_last() =~= self@.orphans.take(i as int));
            assert(self@.orphans.take(i as int + 1).last() == self@.orphans[i as int]);
            if self.storage.has_block(&self.orphan_blocks[i].block.header.previous_hash) {
                assert(adoptable(self@, self@.orphans[i as int]));
                let ghost before = types::hash_views(adopted@);
                adopted.push(self.orphan_blocks[i].hash);
                assert(types::hash_views(adopted@) =~= before.push(self@.orphans[i as int].hash));
                assert forall|k: int|
                    0 <= k < i + 1 && adoptable(self@, #[trigger] self@.orphans[k]) implies types::hash_views(
                        adopted@,
                    ).contains(self@.orphans[k].hash) by {
                    if k < i {
                        let m = choose|m: int| 0 <= m < before.len() && before[m] == self@.orphans[k].hash;
                        assert(types::hash_views(adopted@)[m] == before[m]);
                    } else {
                        assert(types::hash_views(adopted@)[before.len() as int] == self@.orphans[k].hash);
                    }
                }
            }
            i = i + 1;
        }
        assert(adoptable_among(self@, types::hash_views(adopted@).skip(0))) by {
            assert(types::hash_views(adopted@).skip(0) =~= types::hash_views(adopted@));
        }
        assert(self@.orphans.take(self@.orphans.len() as int) =~= self@.orphans);
        let ghost all_hs = types::hash_views(adopted@);
        assert(all_hs.skip(0) =~= all_hs);
        let ghost n0 = old(self)@.orphans.len();
        proof {
            lemma_kept_refl(old(self)@.storage);
            lemma_orphans_within_refl(old(self)@.orphans);
        }
        let mut j: usize = 0;
        while j < adopted.len()
            invariant
                j <= adopted@.len(),
                n0 == old(self)@.orphans.len(),
                self@.wf(),
                self@.config == old(self)@.config,
                old(self)@.storage.kept_in(self@.storage),
                self@.orphans.len() <= n0,
                orphans_within(self@.orphans, old(self)@.orphans),
                adoptable_among(self@, types::hash_views(adopted@).skip(j as int)),
                adopted@.len() == 0 ==> self@ == old(self)@,
                heights_exact(old(self)@.storage) ==> heights_exact(self@.storage),
                all_hs == types::hash_views(adopted@),
                all_hs == adoptable_hashes(old(self)@.orphans, old(self)@.storage),
                forall|w: ChainView|
                    #[trigger] adopts(self@, all_hs.skip(j as int), now, n0, w) ==> adopts(
                        old(self)@,
                        all_hs,
                        now,
                        n0,
                        w,
                    ),
            decreases adopted.len() - j,
        {
            let ghost s_before = self@.storage;
            let ghost os_before = self@.orphans;
            let ghost v_before = self@;
            let ghost hs = types::hash_views(adopted@).skip(j as int);
            assert(hs[0] == adopted@[j as int]@);
            assert(hs.drop_first() =~= types::hash_views(adopted@).skip(j + 1));
            match self.take_orphan(&adopted[j]) {
                Some(block) => {
                    let ghost o = OrphanView { hash: types::block_hash(block.header, block.nonce), block: block@ };
                    let ghost os_mid = self@.orphans;
                    let ghost v_mid = self@;
                    proof {
                        lemma_adoptable_after_take(v_before, v_mid, hs);
                    }
                    let outcome = self.process_block_at(block, now);
                    proof {
                        let v_after = self@;
                        let i0 = choose|i: int|
                            0 <= i < v_before.orphans.len() && #[trigger] v_before.orphans[i].hash == hs[0]
                                && v_before.orphans[i].block == block@ && v_mid == (ChainView {
                                orphans: v_before.orphans.remove(i),
                                ..v_before
                            });
                        assert(has_orphan(v_before.orphans, hs[0]));
                        lemma_adopts_step(v_before, v_mid, block@, outcome, v_after, hs, now, n0);
                        assert forall|w: ChainView| #[trigger] adopts(v_after, all_hs.skip(j + 1), now, n0, w) implies adopts(
                            old(self)@,
                            all_hs,
                            now,
                            n0,
                            w,
                        ) by {
                            assert(adopts(v_before, hs, now, n0, w));
                        }
                        lemma_adoptable_after_process(v_mid, self@, hs.drop_first());
                        lemma_kept_trans(old(self)@.storage, s_before, self@.storage);
                        lemma_orphans_within_trans(os_mid, os_before, old(self)@.orphans);
                        lemma_within_contains(os_before, old(self)@.orphans, o);
                        lemma_orphans_within_push_member(self@.orphans, os_mid, o, old(self)@.orphans);
                    }
                },
                None => {
                    proof {
                        lemma_orphans_within_refl(v_before.orphans);
                        lemma_adoptable_after_take(v_before, self@, hs);
                        lemma_adopts_skip(v_before, hs, now, n0);
                        assert forall|w: ChainView| #[trigger] adopts(self@, all_hs.skip(j + 1), now, n0, w) implies adopts(
                            old(self)@,
                            all_hs,
                            now,
                            n0,
                            w,
                        ) by {
                            assert(adopts(v_before, hs, now, n0, w));
                        }
                    }
                },
            }
            j = j + 1;
        }
        assert forall|k: int| 0 <= k < self@.orphans.len() implies !adoptable(self@, #[trigger] self@.orphans[k]) by {
            if adoptable(self@, self@.orphans[k]) {
                assert(types::hash_views(adopted@).skip(j as int).len() == 0);
            }
        }
        assert(adopts(self@, all_hs.skip(j as int), now, n0, self@));
    }

    /// A block on top of the tip at Unix time `timestamp`: at most
    /// `MAX_PAYLOADS_PER_BLOCK` of the payloads (the first ones), their count
    /// and Merkle root in the header, nonce 0.
    pub fn build_block_with_timestamp(
        &self,
        miner_address: Address,
        difficulty_vote: i8,
        payloads: Vec<Payload>,
        timestamp: u64,
    ) -> (r: Result<Block, String>)
        ensures
            r matches Ok(b) && built_on(b@, self@.storage.tip_hash, miner_address, difficulty_vote, payloads@)
                && b.header.timestamp == timestamp,
    {
        let (tip_hash, _tip_height) = self.tip();
        let ghost given = payloads@;
        let mut payloads = payloads;
        payloads.truncate(MAX_PAYLOADS_PER_BLOCK);
        assert(payloads@ == if given.len() > MAX_PAYLOADS_PER_BLOCK {
            given.take(MAX_PAYLOADS_PER_BLOCK as int)
        } else {
            given
        });
        let merkle_root = Block::compute_merkle_root(payloads.as_slice());
        let header = BlockHeader {
            previous_hash: tip_hash,
            timestamp,
            miner_address,
            difficulty_vote,
            payload_count: payloads.len() as u32,
            merkle_root,
        };
        Ok(Block { header, nonce: 0, payloads })
    }

    /// A block on top of the tip, stamped with the current time.
    pub fn build_block(&self, miner_address: Address, difficulty_vote: i8, payloads: Vec<Payload>) -> (r:
        Result<Block, String>)
        ensures
            r matches Ok(b) && built_on(b@, self@.storage.tip_hash, miner_address, difficulty_vote, payloads@),
    {
        let timestamp = unix_time_secs();
        self.build_block_with_timestamp(miner_address, difficulty_vote, payloads, timestamp)
    }

    /// The blocks a switch from the tip to the chain with the most work would
    /// roll back and apply, each list oldest first: the ancestors of the tip,
    /// and of the best chain's head, above their first common ancestor (the
    /// zero hash when there is none). Both are empty when the tip already
    /// has the most work.
    pub fn try_reorg(&self) -> (r: (Vec<types::Hash>, Vec<types::Hash>))
        requires
            self@.wf(),
            forall|k: int|
                0 <= k < self@.storage.entries.len() ==> chain_work(
                    self@.storage,
                    #[trigger] self@.storage.entries[k].hash,
                    self@.config.genesis_difficulty.target@,
                ).unwrap() <= u128::MAX,
        ensures
            reorg_plan(self@.storage, self@.config.genesis_difficulty.target@, r),
    {
        reorg_of(&self.storage, &self.config.genesis_difficulty)
    }

    /// The tip's hash and height.
    pub fn tip(&self) -> (r: (types::Hash, u64))
        ensures
            r.0@ == self@.storage.tip_hash,
            r.1 == self@.storage.tip_height,
    {
        self.storage.tip()
    }

    /// The stored block with this hash.
    pub fn get_block(&self, hash: &types::Hash) -> (r: Option<Block>)
        requires
            self@.storage.wf(),
        ensures
            r matches Some(b) ==> self@.storage.block_of(hash@) == Some(b@),
            r is None ==> self@.storage.block_of(hash@) is None,
    {
        self.storage.get_block(hash)
    }

    /// The header of the stored block with this hash.
    pub fn get_header(&self, hash: &types::Hash) -> (r: Option<BlockHeader>)
        requires
            self@.storage.wf(),
        ensures
            r matches Some(h) ==> self@.storage.has(hash@) && self@.storage.block_of(hash@).unwrap().header
                == h,
            r is None ==> !self@.storage.has(hash@),
    {
        self.storage.get_header(hash)
    }

    /// The block of the first entry stored at `height`.
    pub fn get_block_by_height(&self, height: u64) -> (r: Option<Block>)
        requires
            self@.storage.wf(),
        ensures
            r matches Some(b) ==> self@.storage.block_at_height(height) == Some(b@),
            r is None ==> self@.storage.block_at_height(height) is None,
    {
        self.storage.get_block_by_height(height)
    }

    /// The block store.
    pub fn storage(&self) -> (s: &BlockStorage)
        ensures
            s@ == self@.storage,
    {
        &self.storage
    }

    /// The target for the next block: the genesis target while the tip is at
    /// height 0, else the target in force at the tip's height.
    pub fn current_difficulty(&self) -> (d: Difficulty)
        requires
            self@.wf(),
        ensures
            self@.storage.tip_height == 0 ==> d == self@.config.genesis_difficulty,
            self@.storage.tip_height != 0 ==> difficulty_at(
                self@.storage,
                self@.storage.tip_height,
                self@.config.genesis_difficulty.target@,
            ) == Some(d.target@),
    {
        let (_, height) = self.tip();
        if height == 0 {
            self.config.genesis_difficulty
        } else {
            proof {
                lemma_difficulty_defined(self@.storage, self@.config.genesis_difficulty.target@);
                assert(difficulty_at(self@.storage, height, self@.config.genesis_difficulty.target@) is Some);
            }
            Consensus::difficulty_at_height(&self.storage, height, &self.config.genesis_difficulty)
        }
    }
}


/// A result with its error text as a character sequence.
pub open spec fn outcome_view(r: Result<bool, String>) -> Result<bool, Seq<char>> {
    match r {
        Ok(x) => Ok(x),
        Err(e) => Err(e@),
    }
}

proof fn lemma_last_best_unique(a: StorageView, b: StorageView, g: Seq<u8>, ka: int, kb: int)
    requires
        a.entries.len() == b.entries.len(),
        forall|j: int|
            0 <= j < a.entries.len() ==> capped_work(a, #[trigger] a.entries[j].hash, g) == capped_work(
                b,
                b.entries[j].hash,
                g,
            ),
        last_best(a, g, ka),
        last_best(b, g, kb),
    ensures
        ka == kb,
{
    reveal(last_best);
    if ka < kb {
        assert(capped_work(a, a.entries[kb].hash, g) < capped_work(a, a.entries[ka].hash, g));
        assert(capped_work(b, b.entries[ka].hash, g) <= capped_work(b, b.entries[kb].hash, g));
    } else if kb < ka {
        assert(capped_work(b, b.entries[ka].hash, g) < capped_work(b, b.entries[kb].hash, g));
        assert(capped_work(a, a.entries[kb].hash, g) <= capped_work(a, a.entries[ka].hash, g));
    }
}

/// A store that differs from `e` only in payloads and tip, with the best
/// block as tip: its tip is the last entry of `e` with the most work.
proof fn lemma_best_tip_of(e: StorageView, t: StorageView, g: Seq<u8>) -> (k: int)
    requires
        e.wf(),
        same_but_payloads(e, t),
        tip_is_best(t, g),
    ensures
        0 <= k < e.entries.len(),
        t.tip_hash == e.entries[k].hash,
        t.tip_height == e.entries[k].height,
        forall|j: int|
            0 <= j < e.entries.len() ==> capped_work(e, #[trigger] e.entries[j].hash, g) == capped_work(
                t,
                t.entries[j].hash,
                g,
            ),
        last_best(t, g, k),
{
    lemma_same_but_payloads(e, t);
    lemma_chain_work_same(e, t, g);
    reveal(last_best);
    let k = choose|k: int| #[trigger] last_best(t, g, k) && t.tip_hash == t.entries[k].hash && t.tip_height == t.entries[k].height;
    assert forall|j: int| 0 <= j < e.entries.len() implies capped_work(e, #[trigger] e.entries[j].hash, g) == capped_work(
        t,
        t.entries[j].hash,
        g,
    ) by {}
    k
}

/// Processing is deterministic on a chain that holds no orphans: the same
/// block under the same clock reading gives the same result and the same
/// chain, so chains fed the same blocks agree.
pub proof fn lemma_processing_deterministic(
    v: ChainView,
    b: BlockView,
    now: u64,
    r1: Result<bool, String>,
    w1: ChainView,
    r2: Result<bool, String>,
    w2: ChainView,
)
    requires
        v.wf(),
        v.orphans.len() == 0,
        processed(v, b, now, r1, w1),
        processed(v, b, now, r2, w2),
    ensures
        outcome_view(r1) == outcome_view(r2),
        w1 == w2,
{
    let s = v.storage;
    let h = types::block_hash(b.header, b.nonce);
    let prev = b.header.previous_hash@;
    let height = height_above(s, prev);
    let g = v.config.genesis_difficulty.target@;
    let target = difficulty_for(s, height, prev, g).unwrap();
    if !s.has(h) && prev != zero_hash() && !s.has(prev) {
        assert(w1 =~= w2);
    } else if !s.has(h) && validation_result(b, s, target, now) is Ok && (prev != zero_hash() || is_genesis_of(
        b,
        v.config,
    )) {
        assert(all_waiting(v));
        let e = store_view(s, b, height);
        lemma_store_then_get(s, b, height);
        let m1 = StorageView { tip_hash: w1.storage.tip_hash, tip_height: w1.storage.tip_height, ..e };
        let m2 = StorageView { tip_hash: w2.storage.tip_hash, tip_height: w2.storage.tip_height, ..e };
        assert(same_but_payloads(e, w1.storage));
        assert(same_but_payloads(e, w2.storage));
        let k1 = lemma_best_tip_of(e, w1.storage, g);
        let k2 = lemma_best_tip_of(e, w2.storage, g);
        assert forall|j: int| 0 <= j < w1.storage.entries.len() implies capped_work(
            w1.storage,
            #[trigger] w1.storage.entries[j].hash,
            g,
        ) == capped_work(w2.storage, w2.storage.entries[j].hash, g) by {
            assert(capped_work(e, e.entries[j].hash, g) == capped_work(w1.storage, w1.storage.entries[j].hash, g));
            assert(capped_work(e, e.entries[j].hash, g) == capped_work(w2.storage, w2.storage.entries[j].hash, g));
        }
        lemma_last_best_unique(w1.storage, w2.storage, g, k1, k2);
        assert(m1 == m2);
        assert(w1 =~= w2);
    }
}


/// Opening a chain again changes nothing: storing the genesis block once
/// more, after an earlier open stored it, gives back the same store.
pub proof fn lemma_reopen_unchanged(s: StorageView, c: ChainConfig, g1: BlockView, g2: BlockView)
    requires
        s.wf(),
        is_genesis_of(g1, c),
        is_genesis_of(g2, c),
    ensures
        store_view(store_view(s, g1, 0), g2, 0) == store_view(s, g1, 0),
{
    assert(g1.header.previous_hash == g2.header.previous_hash) by {
        assert(g1.header.previous_hash@ =~= g2.header.previous_hash@);
    }
    assert(g1.header.miner_address == g2.header.miner_address) by {
        assert(g1.header.miner_address@ =~= g2.header.miner_address@);
    }
    assert(g1.header.merkle_root == g2.header.merkle_root) by {
        assert(g1.header.merkle_root@ =~= g2.header.merkle_root@);
    }
    assert(g1.header == g2.header);
    assert(g1 =~= g2);
    let t = store_view(s, g1, 0);
    let h = types::block_hash(g1.header, g1.nonce);
    lemma_store_then_get(s, g1, 0);
    let i = t.index_of(h);
    assert(t.entries[i].hash == h);
    assert(t.entries[i] == (EntryView { hash: h, height: 0, block: g1 })) by {
        if s.has(h) {
            let j = s.index_of(h);
            assert(s.entries[j].hash == h);
            lemma_index_of(t, h, j);
        } else {
            lemma_index_of(t, h, s.entries.len() as int);
        }
    }
    assert(store_view(t, g2, 0).entries =~= t.entries);
}

} // verus!
