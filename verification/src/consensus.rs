//! Consensus rules: block validation, the yearly difficulty vote, the work a
//! chain represents, fork choice, ancestry, and the supply bound.

use vstd::prelude::*;
use crate::types;
use crate::types::{
    Block, BlockView, Difficulty, hash_eq, is_zero_hash, zero_hash, lex_le, lex_lt, same_prefix,
    merkle_root, pow_hash_of, MAX_PAYLOADS_PER_BLOCK, TARGET_BLOCK_TIME_SECS,
    DIFFICULTY_VOTE_WINDOW, DIFFICULTY_ADJUSTMENT_PERIOD, BLOCK_REWARD, MAX_SUPPLY,
};
use crate::storage::{BlockStorage, StorageView, some_at_height, same_but_payloads, lemma_same_but_payloads};
use crate::types::unix_time_secs;

verus! {

pub struct Consensus;

// ---------------------------------------------------------------------------
// Target adjustment

/// The carry that reaches byte `i` when the target is scaled from its last
/// byte (index 31) towards its first: each byte passes on the remainder of
/// `(byte * percent + carry) / 100`.
pub open spec fn carry_in(t: Seq<u8>, percent: nat, i: int) -> nat
    decreases 31 - i,
{
    if i >= 31 {
        0
    } else {
        ((t[i + 1] as nat) * percent + carry_in(t, percent, i + 1)) % 100
    }
}

/// Byte `i` of the scaled target: `(byte * percent + carry) / 100`, kept to
/// its low eight bits.
pub open spec fn adjusted_byte(t: Seq<u8>, percent: nat, i: int) -> u8 {
    ((((t[i] as nat) * percent + carry_in(t, percent, i)) / 100) % 256) as u8
}

pub open spec fn adjust_target_spec(t: Seq<u8>, percent: nat) -> Seq<u8> {
    Seq::new(32, |i: int| adjusted_byte(t, percent, i))
}

// ---------------------------------------------------------------------------
// Work

/// The big-endian value of a byte string.
pub open spec fn be_value(s: Seq<u8>) -> nat
    decreases s.len(),
{
    if s.len() == 0 {
        0
    } else {
        be_value(s.drop_last()) * 256 + (s.last() as nat)
    }
}

/// The work of one block at a target: 2^256 - 1 divided by the target's
/// big-endian value, kept to at most `u128::MAX` (and `u128::MAX` for a zero
/// target).
pub open spec fn block_work_of(target: Seq<u8>) -> nat {
    let v = be_value(target);
    if v == 0 {
        u128::MAX as nat
    } else if max_target_value() / v > u128::MAX {
        u128::MAX as nat
    } else {
        max_target_value() / v
    }
}

pub proof fn lemma_be_value_bound(s: Seq<u8>)
    ensures
        be_value(s) < vstd::arithmetic::power::pow(256, s.len()),
    decreases s.len(),
{
    if s.len() == 0 {
        vstd::arithmetic::power::lemma_pow0(256);
    } else {
        lemma_be_value_bound(s.drop_last());
        let m = vstd::arithmetic::power::pow(256, (s.len() - 1) as nat);
        vstd::arithmetic::power::lemma_pow_adds(256, (s.len() - 1) as nat, 1);
        vstd::arithmetic::power::lemma_pow1(256);
        let r = be_value(s.drop_last()) as int;
        let a = s.last() as int;
        assert(r * 256 + a < m * 256) by (nonlinear_arith)
            requires
                0 <= a < 256,
                0 <= r < m,
        ;
    }
}

proof fn lemma_pow256_16()
    ensures
        vstd::arithmetic::power::pow(256, 16) == 0x1_0000_0000_0000_0000_0000_0000_0000_0000,
{
    reveal_with_fuel(vstd::arithmetic::power::pow, 17);
}

impl Consensus {
    /// Scales a target by `percent` byte by byte, from the last byte to the
    /// first, carrying each remainder of the division by 100 into the next
    /// more significant byte (a byte whose quotient exceeds 255 keeps its
    /// low eight bits).
    pub fn adjust_target(target: &types::Hash, percent: u64) -> (out: types::Hash)
        requires
            255 * percent + 99 <= u64::MAX,
        ensures
            out@ == adjust_target_spec(target@, percent as nat),
    {
        let mut result: types::Hash = [0u8; 32];
        let mut carry: u64 = 0;
        let mut i: usize = 32;
        while i > 0
            invariant
                i <= 32,
                255 * percent + 99 <= u64::MAX,
                carry < 100,
                i > 0 ==> carry == carry_in(target@, percent as nat, i - 1),
                forall|j: int|
                    i <= j < 32 ==> #[trigger] result@[j] == adjusted_byte(target@, percent as nat, j),
            decreases i,
        {
            i = i - 1;
            let t = target[i] as u64;
            proof {
                assert(t * percent <= 255 * percent) by (nonlinear_arith)
                    requires
                        t <= 255,
                ;
            }
            let val = t * percent + carry;
            let q = val / 100;
            proof {
                assert((q as u8) == ((q % 256) as u8)) by (bit_vector);
            }
            result[i] = q as u8;
            carry = val % 100;
        }
        assert(result@ =~= adjust_target_spec(target@, percent as nat));
        result
    }

    /// The work of one block mined at `difficulty`: 2^256 - 1 divided by the
    /// big-endian value of the whole target, at most `u128::MAX`.
    pub fn block_work(difficulty: &Difficulty) -> (w: u128)
        ensures
            w == block_work_of(difficulty.target@),
    {
        let mut v: u128 = 0;
        let mut k: usize = 0;
        while k < 16
            invariant
                k <= 16,
                v == be_value(difficulty.target@.take(k as int)),
            decreases 16 - k,
        {
            proof {
                let s = difficulty.target@.take(k as int + 1);
                assert(s.drop_last() =~= difficulty.target@.take(k as int));
                lemma_be_value_bound(s);
                lemma_pow256_16();
                vstd::arithmetic::power::lemma_pow_increases(256, (k + 1) as nat, 16);
            }
            v = v * 256 + difficulty.target[k] as u128;
            k = k + 1;
        }
        let ghost t = difficulty.target@;
        let mut lo: u128 = 0;
        let mut k: usize = 16;
        while k < 32
            invariant
                16 <= k <= 32,
                t == difficulty.target@,
                lo == be_value(t.subrange(16, k as int)),
            decreases 32 - k,
        {
            proof {
                let s = t.subrange(16, k as int + 1);
                assert(s.drop_last() =~= t.subrange(16, k as int));
                lemma_be_value_bound(s);
                lemma_pow256_16();
                vstd::arithmetic::power::lemma_pow_increases(256, (k + 1 - 16) as nat, 16);
            }
            lo = lo * 256 + difficulty.target[k] as u128;
            k = k + 1;
        }
        let hi = v;
        proof {
            assert(t =~= t.take(16) + t.subrange(16, 32));
            lemma_be_value_append(t.take(16), t.subrange(16, 32));
            lemma_pow256_16();
            assert(be_value(t) == hi * 0x1_0000_0000_0000_0000_0000_0000_0000_0000int + lo);
        }
        if hi == 0 {
            proof {
                if lo != 0 {
                    let two128: int = 0x1_0000_0000_0000_0000_0000_0000_0000_0000int;
                    assert(lo * two128 <= max_target_value()) by (nonlinear_arith)
                        requires
                            lo < two128,
                            two128 == 0x1_0000_0000_0000_0000_0000_0000_0000_0000int,
                            max_target_value() == two128 * two128 - 1,
                    ;
                    vstd::arithmetic::div_mod::lemma_div_is_ordered(lo * two128, max_target_value() as int, lo as int);
                    vstd::arithmetic::div_mod::lemma_div_multiples_vanish(two128, lo as int);
                    assert(lo * two128 == lo as int * two128);
                }
            }
            return u128::MAX;
        }
        div_max_by(hi, lo)
    }
}


// ---------------------------------------------------------------------------
// Laws of the target adjustment

/// A byte string that is byte-wise at most another of the same length comes
/// no later in the lexicographic order, and strictly earlier when they differ.
pub proof fn lemma_bytewise_lex(a: Seq<u8>, b: Seq<u8>)
    requires
        a.len() == b.len(),
        forall|i: int| 0 <= i < a.len() ==> a[i] <= b[i],
    ensures
        lex_le(a, b),
        a != b ==> lex_lt(a, b),
{
    if a != b {
        if forall|i: int| 0 <= i < a.len() ==> a[i] == b[i] {
            assert(a =~= b);
        } else {
            let k0 = choose|i: int| 0 <= i < a.len() && a[i] != b[i];
            lemma_first_difference(a, b, k0);
        }
    }
}

proof fn lemma_first_difference(a: Seq<u8>, b: Seq<u8>, k0: int)
    requires
        a.len() == b.len(),
        forall|i: int| 0 <= i < a.len() ==> a[i] <= b[i],
        0 <= k0 < a.len(),
        a[k0] != b[k0],
    ensures
        lex_lt(a, b),
    decreases k0,
{
    if same_prefix(a, b, k0) {
        assert(a[k0] < b[k0]);
    } else {
        let j = choose|j: int| 0 <= j < k0 && a[j] != b[j];
        lemma_first_difference(a, b, j);
    }
}

/// Below the last nonzero byte no carry arises.
proof fn lemma_carry_zero(t: Seq<u8>, percent: nat, i: int)
    requires
        t.len() == 32,
        0 <= i < 32,
        forall|k: int| i < k < 32 ==> t[k] == 0,
    ensures
        carry_in(t, percent, i) == 0,
    decreases 31 - i,
{
    if i < 31 {
        lemma_carry_zero(t, percent, i + 1);
        assert(t[i + 1] == 0);
    }
}

proof fn lemma_carry_small(t: Seq<u8>, percent: nat, i: int)
    ensures
        carry_in(t, percent, i) < 100,
{
}

/// The last nonzero byte of a nonzero 32-byte string.
proof fn lemma_last_nonzero(t: Seq<u8>) -> (j: int)
    requires
        t.len() == 32,
        t != zero_hash(),
    ensures
        0 <= j < 32,
        t[j] != 0,
        forall|k: int| j < k < 32 ==> t[k] == 0,
{
    if forall|i: int| 0 <= i < 32 ==> t[i] == 0 {
        assert(t =~= zero_hash());
    }
    let i0 = choose|i: int| 0 <= i < 32 && t[i] != 0;
    lemma_last_nonzero_from(t, i0)
}

proof fn lemma_last_nonzero_from(t: Seq<u8>, i0: int) -> (j: int)
    requires
        t.len() == 32,
        0 <= i0 < 32,
        t[i0] != 0,
    ensures
        0 <= j < 32,
        t[j] != 0,
        forall|k: int| j < k < 32 ==> t[k] == 0,
    decreases 32 - i0,
{
    if forall|k: int| i0 < k < 32 ==> t[k] == 0 {
        i0
    } else {
        let i1 = choose|k: int| i0 < k < 32 && t[k] != 0;
        lemma_last_nonzero_from(t, i1)
    }
}

/// Scaling by at most 100 percent never raises a byte, so the target never
/// grows; below 100 percent a nonzero target strictly shrinks (the vote to
/// raise the difficulty always makes blocks harder to find).
pub proof fn lemma_adjust_down(t: Seq<u8>, percent: nat)
    requires
        t.len() == 32,
        percent <= 100,
    ensures
        forall|i: int| 0 <= i < 32 ==> #[trigger] adjust_target_spec(t, percent)[i] <= t[i],
        lex_le(adjust_target_spec(t, percent), t),
        be_value(adjust_target_spec(t, percent)) <= be_value(t),
        percent < 100 && t != zero_hash() ==> lex_lt(adjust_target_spec(t, percent), t),
{
    let r = adjust_target_spec(t, percent);
    lemma_lex_is_numeric(r, t);
    assert forall|i: int| 0 <= i < 32 implies #[trigger] r[i] <= t[i] by {
        let c = carry_in(t, percent, i);
        let x = t[i] as nat;
        lemma_carry_small(t, percent, i);
        assert((x * percent + c) / 100 <= x) by (nonlinear_arith)
            requires
                percent <= 100,
                c < 100,
        ;
    }
    lemma_bytewise_lex(r, t);
    if percent < 100 && t != zero_hash() {
        let j = lemma_last_nonzero(t);
        lemma_carry_zero(t, percent, j);
        let x = t[j] as nat;
        assert((x * percent) / 100 < x) by (nonlinear_arith)
            requires
                percent < 100,
                x >= 1,
        ;
        assert(r[j] != t[j]);
    }
}

/// Scaling by at least 100 percent never lowers a byte while no byte's
/// quotient exceeds 255, so the target never shrinks (the vote to lower the
/// difficulty never makes blocks harder to find).
pub proof fn lemma_adjust_up(t: Seq<u8>, percent: nat)
    requires
        t.len() == 32,
        percent >= 100,
        forall|i: int|
            0 <= i < 32 ==> ((t[i] as nat) * percent + #[trigger] carry_in(t, percent, i)) / 100 < 256,
    ensures
        forall|i: int| 0 <= i < 32 ==> t[i] <= #[trigger] adjust_target_spec(t, percent)[i],
        lex_le(t, adjust_target_spec(t, percent)),
{
    let r = adjust_target_spec(t, percent);
    assert forall|i: int| 0 <= i < 32 implies t[i] <= #[trigger] r[i] by {
        let c = carry_in(t, percent, i);
        let x = t[i] as nat;
        assert(((x * percent + c) / 100) < 256);
        assert(x <= (x * percent + c) / 100) by (nonlinear_arith)
            requires
                percent >= 100,
        ;
    }
    lemma_bytewise_lex(t, r);
}

/// The quotient of byte `i` of the scaled target before it is cut to eight bits.
pub open spec fn adjusted_quotient(t: Seq<u8>, percent: nat, i: int) -> nat {
    ((t[i] as nat) * percent + carry_in(t, percent, i)) / 100
}

/// `k` is the first byte whose scaled quotient differs from the target's byte.
pub open spec fn first_changed(t: Seq<u8>, percent: nat, k: int) -> bool {
    &&& 0 <= k < 32
    &&& adjusted_quotient(t, percent, k) != t[k] as nat
    &&& forall|j: int| 0 <= j < k ==> adjusted_quotient(t, percent, j) == t[j] as nat
}

proof fn lemma_first_changed_from(t: Seq<u8>, percent: nat, i0: int) -> (k: int)
    requires
        t.len() == 32,
        0 <= i0 < 32,
        adjusted_quotient(t, percent, i0) != t[i0] as nat,
    ensures
        first_changed(t, percent, k),
    decreases i0,
{
    if forall|j: int| 0 <= j < i0 ==> adjusted_quotient(t, percent, j) == t[j] as nat {
        i0
    } else {
        let j = choose|j: int| 0 <= j < i0 && adjusted_quotient(t, percent, j) != t[j] as nat;
        lemma_first_changed_from(t, percent, j)
    }
}

/// Each scaled byte between 100 and 200 percent: its quotient is at least the
/// byte and less than 256 above it, and the byte kept is the quotient's low
/// eight bits.
proof fn lemma_easing_bytes(t: Seq<u8>, percent: nat)
    requires
        t.len() == 32,
        100 <= percent < 200,
    ensures
        forall|i: int| 0 <= i < 32 ==> t[i] as nat <= #[trigger] adjusted_quotient(t, percent, i)
            && adjusted_quotient(t, percent, i) < t[i] as nat + 256
            && adjust_target_spec(t, percent)[i] as nat == adjusted_quotient(t, percent, i) % 256,
        adjust_target_spec(t, percent).len() == 32,
{
    assert forall|i: int| 0 <= i < 32 implies t[i] as nat <= #[trigger] adjusted_quotient(t, percent, i)
        && adjusted_quotient(t, percent, i) < t[i] as nat + 256
        && adjust_target_spec(t, percent)[i] as nat == adjusted_quotient(t, percent, i) % 256 by {
        let c = carry_in(t, percent, i);
        let x = t[i] as nat;
        lemma_carry_small(t, percent, i);
        assert(x <= (x * percent + c) / 100 && (x * percent + c) / 100 < x + 256) by (nonlinear_arith)
            requires
                100 <= percent < 200,
                c < 100,
                x < 256,
        ;
    }
}

/// Two byte strings of one length that agree before `k` and differ at `k`
/// are in order exactly when the first is smaller at `k`.
proof fn lemma_lex_at_first_change(t: Seq<u8>, r: Seq<u8>, k: int)
    requires
        t.len() == r.len(),
        0 <= k < t.len(),
        same_prefix(t, r, k),
        t[k] != r[k],
    ensures
        lex_le(t, r) <==> t[k] < r[k],
{
    assert(t != r);
    if t[k] < r[k] {
        assert(lex_lt(t, r));
    } else if lex_lt(t, r) {
        let k2 = choose|k2: int| 0 <= k2 < t.len() && k2 < r.len() && #[trigger] same_prefix(t, r, k2) && t[k2] < r[k2];
        if k2 < k {
            assert(t[k2] == r[k2]);
        } else if k2 > k {
            assert(t[k] == r[k]);
        }
    }
}

/// The easing law in the byte order.
#[verifier::spinoff_prover]
proof fn lemma_adjust_up_lex(t: Seq<u8>, percent: nat)
    requires
        t.len() == 32,
        100 <= percent < 200,
    ensures
        lex_le(t, adjust_target_spec(t, percent)) <==> (forall|k: int|
            #[trigger] first_changed(t, percent, k) ==> adjusted_quotient(t, percent, k) < 256),
{
    let r = adjust_target_spec(t, percent);
    lemma_easing_bytes(t, percent);
    if exists|i: int| 0 <= i < 32 && adjusted_quotient(t, percent, i) != t[i] as nat {
        let i0 = choose|i: int| 0 <= i < 32 && adjusted_quotient(t, percent, i) != t[i] as nat;
        let k = lemma_first_changed_from(t, percent, i0);
        let q = adjusted_quotient(t, percent, k);
        assert(same_prefix(t, r, k)) by {
            assert forall|j: int| 0 <= j < k implies t[j] == r[j] by {
                assert(adjusted_quotient(t, percent, j) == t[j] as nat);
            }
        }
        assert forall|k2: int| #[trigger] first_changed(t, percent, k2) implies k2 == k by {
            if k2 < k {
                assert(adjusted_quotient(t, percent, k2) == t[k2] as nat);
            } else if k2 > k {
                assert(adjusted_quotient(t, percent, k) == t[k] as nat);
            }
        }
        assert(t[k] as nat <= q && q < t[k] as nat + 256 && r[k] as nat == q % 256);
        assert((r[k] as nat) != (t[k] as nat) && ((t[k] as nat) < (r[k] as nat) <==> q < 256)) by (nonlinear_arith)
            requires
                t[k] as nat <= q,
                q < t[k] as nat + 256,
                r[k] as nat == q % 256,
                q != t[k] as nat,
                t[k] < 256,
        ;
        lemma_lex_at_first_change(t, r, k);
    } else {
        assert(r =~= t) by {
            assert forall|i: int| 0 <= i < 32 implies r[i] == t[i] by {
                assert(adjusted_quotient(t, percent, i) == t[i] as nat);
            }
        }
    }
}

/// Between 100 and 200 percent (the easing vote scales by 110), the scaled
/// target comes no earlier than the target exactly when the first byte that
/// changes does not overflow its eight bits; when it overflows, the scaled
/// target comes strictly earlier. The same holds of the targets' big-endian values.
pub proof fn lemma_adjust_up_exact(t: Seq<u8>, percent: nat)
    requires
        t.len() == 32,
        100 <= percent < 200,
    ensures
        lex_le(t, adjust_target_spec(t, percent)) <==> (forall|k: int|
            #[trigger] first_changed(t, percent, k) ==> adjusted_quotient(t, percent, k) < 256),
        be_value(t) <= be_value(adjust_target_spec(t, percent)) <==> lex_le(t, adjust_target_spec(t, percent)),
{
    lemma_adjust_up_lex(t, percent);
    lemma_lex_is_numeric(t, adjust_target_spec(t, percent));
}


// ---------------------------------------------------------------------------
// Difficulty specification

/// The height of a stored hash, or 0 for one that is not stored.
pub open spec fn height_or_zero(s: StorageView, h: Seq<u8>) -> int {
    match s.height_of(h) {
        Some(x) => x as int,
        None => 0,
    }
}

/// The lowest height of the vote window of 1000 heights that ends at
/// `last` (or of all heights up to `last`, when there are fewer).
pub open spec fn vote_window_start(last: u64) -> u64 {
    if last >= DIFFICULTY_VOTE_WINDOW - 1 {
        (last - (DIFFICULTY_VOTE_WINDOW - 1)) as u64
    } else {
        0
    }
}

/// The difficulty votes of the first blocks stored at heights `lo .. hi`,
/// lowest height first; heights with no block contribute nothing.
pub open spec fn votes_between(s: StorageView, lo: int, hi: int) -> Seq<i8>
    decreases hi - lo,
{
    if hi <= lo {
        Seq::empty()
    } else {
        let earlier = votes_between(s, lo, hi - 1);
        match s.block_at_height((hi - 1) as u64) {
            Some(b) => earlier.push(b.header.difficulty_vote),
            None => earlier,
        }
    }
}

pub open spec fn count_up(v: Seq<i8>) -> nat
    decreases v.len(),
{
    if v.len() == 0 {
        0
    } else {
        count_up(v.drop_last()) + if v.last() > 0 {
            1nat
        } else {
            0nat
        }
    }
}

pub open spec fn count_down(v: Seq<i8>) -> nat
    decreases v.len(),
{
    if v.len() == 0 {
        0
    } else {
        count_down(v.drop_last()) + if v.last() < 0 {
            1nat
        } else {
            0nat
        }
    }
}

/// The target after a vote over `votes`: a majority of the window
/// (more than 500 up-votes) lowers the target to 90 percent, otherwise a
/// majority of down-votes raises it to 110 percent.
pub open spec fn voted_target(target: Seq<u8>, votes: Seq<i8>) -> Seq<u8> {
    if count_up(votes) > DIFFICULTY_VOTE_WINDOW / 2 {
        adjust_target_spec(target, 90)
    } else if count_down(votes) > DIFFICULTY_VOTE_WINDOW / 2 {
        adjust_target_spec(target, 110)
    } else {
        target
    }
}

/// Steps enough for every walk over stored parents that ends: a walk that
/// takes more steps than there are entries meets some entry twice, and from
/// there on repeats itself forever.
pub open spec fn walk_fuel(s: StorageView) -> nat {
    s.entries.len() + 1
}

/// The target in force at `height`, or `None` when working it out takes
/// more than `fuel` steps to parents: the genesis target at height 0 or when
/// no block is stored there, else the target that the first block there was
/// mined under.
pub open spec fn difficulty_at_fuel(s: StorageView, height: u64, g: Seq<u8>, fuel: nat) -> Option<Seq<u8>>
    decreases fuel, 1nat,
{
    if height == 0 {
        Some(g)
    } else {
        match s.block_at_height(height) {
            None => Some(g),
            Some(b) => difficulty_for_fuel(s, height, b.header.previous_hash@, g, fuel),
        }
    }
}

/// The target for a block at `height` whose parent is `parent`, or `None`
/// when working it out takes more than `fuel` steps to parents: the genesis
/// target for an unknown parent; otherwise the parent's target, put to the
/// vote of the 1000 heights below the parent when `height` is a multiple of
/// the adjustment period.
pub open spec fn difficulty_for_fuel(s: StorageView, height: u64, parent: Seq<u8>, g: Seq<u8>, fuel: nat) -> Option<
    Seq<u8>,
>
    decreases fuel, 0nat,
{
    if !s.has(parent) {
        Some(g)
    } else if fuel == 0 {
        None
    } else {
        let ph = s.height_of(parent).unwrap();
        match difficulty_at_fuel(s, ph, g, (fuel - 1) as nat) {
            None => None,
            Some(pd) => Some(
                if height % DIFFICULTY_ADJUSTMENT_PERIOD != 0 {
                    pd
                } else {
                    voted_target(pd, votes_between(s, vote_window_start(ph) as int, ph + 1))
                },
            ),
        }
    }
}

/// The target in force at `height`; `None` exactly when the walk over
/// parents that computes it never ends.
pub open spec fn difficulty_at(s: StorageView, height: u64, g: Seq<u8>) -> Option<Seq<u8>> {
    difficulty_at_fuel(s, height, g, walk_fuel(s))
}

/// The target for a block at `height` on top of `parent`; `None` exactly
/// when the walk over parents that computes it never ends.
pub open spec fn difficulty_for(s: StorageView, height: u64, parent: Seq<u8>, g: Seq<u8>) -> Option<Seq<u8>> {
    difficulty_for_fuel(s, height, parent, g, walk_fuel(s))
}

/// In a linked store the first block at a positive height has a stored
/// parent at a lower height.
pub proof fn lemma_block_at_height_parent(s: StorageView, height: u64)
    requires
        s.linked(),
        height > 0,
        s.block_at_height(height) is Some,
    ensures
        s.has(s.block_at_height(height).unwrap().header.previous_hash@),
        height_or_zero(s, s.block_at_height(height).unwrap().header.previous_hash@) < height,
{
    let k = choose|k: int| #[trigger] s.first_at(height, k);
    assert(s.first_at(height, k));
    assert(s.entries[k].height == height);
}

/// In a linked store the parent of a stored block at a positive height is
/// stored at a lower height; at height 0 the parent is the zero hash.
pub proof fn lemma_stored_parent(s: StorageView, h: Seq<u8>)
    requires
        s.wf(),
        s.linked(),
        s.has(h),
    ensures
        s.height_of(h).unwrap() == 0 ==> s.block_of(h).unwrap().header.previous_hash@ == zero_hash(),
        s.height_of(h).unwrap() > 0 ==> s.has(s.block_of(h).unwrap().header.previous_hash@)
            && height_or_zero(s, s.block_of(h).unwrap().header.previous_hash@) < s.height_of(
            h,
        ).unwrap(),
        s.height_of(h).unwrap() > 0 ==> s.block_of(h).unwrap().header.previous_hash@ != zero_hash(),
{
    let k = s.index_of(h);
    assert(s.entries[k].hash == h);
}

/// In a linked store the target at a height is worked out within as many
/// steps as the height.
proof fn lemma_difficulty_at_fuel_defined(s: StorageView, height: u64, g: Seq<u8>, fuel: nat)
    requires
        s.linked(),
        height <= fuel,
    ensures
        difficulty_at_fuel(s, height, g, fuel) is Some,
    decreases fuel,
{
    if height != 0 {
        if let Some(b) = s.block_at_height(height) {
            lemma_block_at_height_parent(s, height);
            let p = b.header.previous_hash@;
            let ph = s.height_of(p).unwrap();
            lemma_difficulty_at_fuel_defined(s, ph, g, (fuel - 1) as nat);
        }
    }
}

/// In a linked store whose heights are below its size, every target is
/// worked out: the walks over parents that compute them all end.
pub proof fn lemma_difficulty_defined(s: StorageView, g: Seq<u8>)
    requires
        s.wf(),
        s.linked(),
        s.heights_bounded(),
    ensures
        forall|height: u64| #[trigger] difficulty_at(s, height, g) is Some,
        forall|height: u64, parent: Seq<u8>| #[trigger] difficulty_for(s, height, parent, g) is Some,
{
    assert forall|height: u64| #[trigger] difficulty_at(s, height, g) is Some by {
        if height != 0 && s.block_at_height(height) is Some {
            let k = choose|k: int| #[trigger] s.first_at(height, k);
            assert(s.first_at(height, k));
            assert(s.entries[k].height < s.entries.len());
            lemma_difficulty_at_fuel_defined(s, height, g, walk_fuel(s));
        }
    }
    assert forall|height: u64, parent: Seq<u8>| #[trigger] difficulty_for(s, height, parent, g) is Some by {
        if s.has(parent) {
            let k = s.index_of(parent);
            assert(s.entries[k].hash == parent);
            let ph = s.height_of(parent).unwrap();
            assert(ph < s.entries.len());
            lemma_difficulty_at_fuel_defined(s, ph, g, (walk_fuel(s) - 1) as nat);
        }
    }
}

impl Consensus {
    /// The votes of the first blocks at the (up to) 1000 heights ending at
    /// `last_height`, lowest first.
    pub fn collect_votes(storage: &BlockStorage, last_height: u64) -> (votes: Vec<i8>)
        requires
            storage@.wf(),
        ensures
            votes@ == votes_between(storage@, vote_window_start(last_height) as int, last_height + 1),
    {
        let start = last_height.saturating_sub(DIFFICULTY_VOTE_WINDOW - 1);
        let mut votes: Vec<i8> = Vec::new();
        let mut h = start;
        loop
            invariant_except_break
                storage@.wf(),
                start <= h <= last_height,
                start == vote_window_start(last_height),
                votes@ == votes_between(storage@, start as int, h as int),
            ensures
                votes@ == votes_between(storage@, start as int, last_height + 1),
            decreases last_height - h,
        {
            match storage.header_at_height(h) {
                Some(header) => votes.push(header.difficulty_vote),
                None => {},
            }
            if h == last_height {
                break;
            }
            h = h + 1;
        }
        votes
    }

    /// The target for a block at `height` on top of `parent_hash`. The walk
    /// over parents that computes it must end.
    pub fn compute_difficulty(
        storage: &BlockStorage,
        height: u64,
        parent_hash: &types::Hash,
        genesis_difficulty: &Difficulty,
    ) -> (d: Difficulty)
        requires
            storage@.wf(),
            difficulty_for(storage@, height, parent_hash@, genesis_difficulty.target@) is Some,
        ensures
            difficulty_for(storage@, height, parent_hash@, genesis_difficulty.target@) == Some(d.target@),
    {
        Self::difficulty_for_walk(storage, height, parent_hash, genesis_difficulty, Ghost(walk_fuel(storage@)))
    }

    /// The target in force at `height`. The walk over parents that computes
    /// it must end.
    pub fn difficulty_at_height(storage: &BlockStorage, height: u64, genesis_difficulty: &Difficulty) -> (d:
        Difficulty)
        requires
            storage@.wf(),
            difficulty_at(storage@, height, genesis_difficulty.target@) is Some,
        ensures
            difficulty_at(storage@, height, genesis_difficulty.target@) == Some(d.target@),
    {
        Self::difficulty_at_walk(storage, height, genesis_difficulty, Ghost(walk_fuel(storage@)))
    }

    fn difficulty_for_walk(
        storage: &BlockStorage,
        height: u64,
        parent_hash: &types::Hash,
        genesis_difficulty: &Difficulty,
        Ghost(fuel): Ghost<nat>,
    ) -> (d: Difficulty)
        requires
            storage@.wf(),
            difficulty_for_fuel(storage@, height, parent_hash@, genesis_difficulty.target@, fuel) is Some,
        ensures
            difficulty_for_fuel(storage@, height, parent_hash@, genesis_difficulty.target@, fuel) == Some(
                d.target@,
            ),
        decreases fuel, 0nat,
    {
        let parent_height = match storage.height_of(parent_hash) {
            Some(h) => h,
            None => return *genesis_difficulty,
        };
        let parent_difficulty = Self::difficulty_at_walk(
            storage,
            parent_height,
            genesis_difficulty,
            Ghost((fuel - 1) as nat),
        );
        if height % DIFFICULTY_ADJUSTMENT_PERIOD != 0 {
            return parent_difficulty;
        }
        let votes = Self::collect_votes(storage, parent_height);
        let mut up: u64 = 0;
        let mut down: u64 = 0;
        let mut i: usize = 0;
        while i < votes.len()
            invariant
                i <= votes@.len(),
                up == count_up(votes@.take(i as int)),
                down == count_down(votes@.take(i as int)),
                up <= i,
                down <= i,
            decreases votes.len() - i,
        {
            assert(votes@.take(i as int + 1).drop_last() =~= votes@.take(i as int));
            let vote = votes[i];
            if vote > 0 {
                up = up + 1;
            } else if vote < 0 {
                down = down + 1;
            }
            i = i + 1;
        }
        assert(votes@.take(votes@.len() as int) =~= votes@);
        let mut target = parent_difficulty.target;
        if up > DIFFICULTY_VOTE_WINDOW / 2 {
            target = Self::adjust_target(&target, 90);
        } else if down > DIFFICULTY_VOTE_WINDOW / 2 {
            target = Self::adjust_target(&target, 110);
        }
        Difficulty::new(target)
    }

    fn difficulty_at_walk(
        storage: &BlockStorage,
        height: u64,
        genesis_difficulty: &Difficulty,
        Ghost(fuel): Ghost<nat>,
    ) -> (d: Difficulty)
        requires
            storage@.wf(),
            difficulty_at_fuel(storage@, height, genesis_difficulty.target@, fuel) is Some,
        ensures
            difficulty_at_fuel(storage@, height, genesis_difficulty.target@, fuel) == Some(d.target@),
        decreases fuel, 1nat,
    {
        if height == 0 {
            return *genesis_difficulty;
        }
        let header = match storage.header_at_height(height) {
            Some(h) => h,
            None => return *genesis_difficulty,
        };
        Self::difficulty_for_walk(storage, height, &header.previous_hash, genesis_difficulty, Ghost(fuel))
    }
}


// ---------------------------------------------------------------------------
// Work and ancestry specification

/// The work of the chain ending at `cur`, or `None` when working it out
/// takes more than `fuel` steps to parents: for each stored block from
/// `cur` back to height 0, the work at the target in force at its height.
pub open spec fn chain_work_fuel(s: StorageView, cur: Seq<u8>, g: Seq<u8>, fuel: nat) -> Option<nat>
    decreases fuel,
{
    match s.height_of(cur) {
        None => Some(0),
        Some(h) => match difficulty_at(s, h, g) {
            None => None,
            Some(d) => if h == 0 {
                Some(block_work_of(d))
            } else if fuel == 0 {
                None
            } else {
                match chain_work_fuel(s, s.block_of(cur).unwrap().header.previous_hash@, g, (fuel - 1) as nat) {
                    None => None,
                    Some(rest) => Some(block_work_of(d) + rest),
                }
            },
        },
    }
}

/// The work of the chain ending at `cur`; `None` exactly when the walk over
/// parents that computes it never ends.
pub open spec fn chain_work(s: StorageView, cur: Seq<u8>, g: Seq<u8>) -> Option<nat> {
    chain_work_fuel(s, cur, g, walk_fuel(s))
}

/// The hashes from `cur` back through stored parents, `cur` first, ending at
/// a block whose parent is the zero hash or at the first hash not stored;
/// `None` when that takes more than `fuel` steps to parents.
pub open spec fn ancestors_fuel(s: StorageView, cur: Seq<u8>, fuel: nat) -> Option<Seq<Seq<u8>>>
    decreases fuel,
{
    match s.block_of(cur) {
        None => Some(Seq::empty()),
        Some(b) => if b.header.previous_hash@ == zero_hash() {
            Some(seq![cur])
        } else if fuel == 0 {
            None
        } else {
            match ancestors_fuel(s, b.header.previous_hash@, (fuel - 1) as nat) {
                None => None,
                Some(rest) => Some(seq![cur] + rest),
            }
        },
    }
}

/// The ancestors of `cur`, itself first; `None` exactly when the walk over
/// parents never ends.
pub open spec fn ancestors_of(s: StorageView, cur: Seq<u8>) -> Option<Seq<Seq<u8>>> {
    ancestors_fuel(s, cur, walk_fuel(s))
}

/// The first element of `ys` that also occurs in `xs`.
pub open spec fn first_common(xs: Seq<Seq<u8>>, ys: Seq<Seq<u8>>) -> Option<Seq<u8>>
    decreases ys.len(),
{
    if ys.len() == 0 {
        None
    } else if xs.contains(ys[0]) {
        Some(ys[0])
    } else {
        first_common(xs, ys.drop_first())
    }
}

/// The position of the candidate with the most chain work among the first
/// `n`; among equals the later one wins.
#[verifier::opaque]
pub open spec fn best_index(s: StorageView, cs: Seq<Seq<u8>>, g: Seq<u8>, n: nat) -> int
    decreases n,
{
    if n <= 1 {
        0
    } else {
        let b = best_index(s, cs, g, (n - 1) as nat);
        if chain_work(s, cs[n - 1], g).unwrap() >= chain_work(s, cs[b], g).unwrap() {
            n - 1
        } else {
            b
        }
    }
}

/// The number of heights below `n` at which some block is stored.
pub open spec fn heights_with_blocks(s: StorageView, n: nat) -> nat
    decreases n,
{
    if n == 0 {
        0
    } else {
        heights_with_blocks(s, (n - 1) as nat) + if some_at_height(s, (n - 1) as u64) {
            1nat
        } else {
            0nat
        }
    }
}

proof fn lemma_best_index_step(s: StorageView, cs: Seq<Seq<u8>>, g: Seq<u8>, n: nat)
    requires
        n >= 1,
    ensures
        best_index(s, cs, g, n + 1) == if chain_work(s, cs[n as int], g).unwrap() >= chain_work(
            s,
            cs[best_index(s, cs, g, n)],
            g,
        ).unwrap() {
            n as int
        } else {
            best_index(s, cs, g, n)
        },
{
    reveal(best_index);
}

proof fn lemma_best_index_one(s: StorageView, cs: Seq<Seq<u8>>, g: Seq<u8>)
    ensures
        best_index(s, cs, g, 1) == 0,
{
    reveal(best_index);
}

pub proof fn lemma_best_index_bounds(s: StorageView, cs: Seq<Seq<u8>>, g: Seq<u8>, n: nat)
    requires
        n >= 1,
    ensures
        0 <= best_index(s, cs, g, n) < n,
    decreases n,
{
    reveal(best_index);
    if n > 1 {
        lemma_best_index_bounds(s, cs, g, (n - 1) as nat);
    }
}

impl Consensus {
    /// The total work of the chain ending at `tip_hash`. The walk over
    /// parents that computes it must end and its total must fit in a `u128`.
    pub fn cumulative_work(storage: &BlockStorage, tip_hash: &types::Hash, genesis_difficulty: &Difficulty) -> (w:
        u128)
        requires
            storage@.wf(),
            chain_work(storage@, tip_hash@, genesis_difficulty.target@) matches Some(total) && total
                <= u128::MAX,
        ensures
            chain_work(storage@, tip_hash@, genesis_difficulty.target@) == Some(w as nat),
    {
        let ghost s = storage@;
        let ghost g = genesis_difficulty.target@;
        let ghost total = chain_work(s, tip_hash@, g).unwrap();
        let ghost mut fuel = walk_fuel(s);
        let mut work: u128 = 0;
        let mut current: types::Hash = *tip_hash;
        loop
            invariant_except_break
                s == storage@,
                g == genesis_difficulty.target@,
                s.wf(),
                chain_work_fuel(s, current@, g, fuel) matches Some(rest) && work + rest == total,
                total <= u128::MAX,
            ensures
                work == total,
            decreases fuel,
        {
            let height = match storage.height_of(&current) {
                Some(h) => h,
                None => break,
            };
            let diff = Self::difficulty_at_height(storage, height, genesis_difficulty);
            let bw = Self::block_work(&diff);
            work = work + bw;
            if height == 0 {
                break;
            }
            let header = match storage.get_header(&current) {
                Some(h) => h,
                None => break,
            };
            current = header.previous_hash;
            proof {
                fuel = (fuel - 1) as nat;
            }
        }
        work
    }

    /// The hashes from `hash` back through stored parents. The walk must end.
    pub fn get_ancestors(storage: &BlockStorage, hash: &types::Hash) -> (out: Vec<types::Hash>)
        requires
            storage@.wf(),
            ancestors_of(storage@, hash@) is Some,
        ensures
            ancestors_of(storage@, hash@) == Some(types::hash_views(out@)),
    {
        let ghost s = storage@;
        let ghost all = ancestors_of(s, hash@).unwrap();
        let ghost mut fuel = walk_fuel(s);
        let mut ancestors: Vec<types::Hash> = Vec::new();
        let mut current: types::Hash = *hash;
        loop
            invariant_except_break
                s == storage@,
                s.wf(),
                ancestors_fuel(s, current@, fuel) matches Some(rest) && types::hash_views(ancestors@) + rest
                    == all,
            ensures
                types::hash_views(ancestors@) == all,
            decreases fuel,
        {
            let header = match storage.get_header(&current) {
                Some(h) => h,
                None => {
                    assert(types::hash_views(ancestors@) + Seq::<Seq<u8>>::empty() =~= types::hash_views(
                        ancestors@,
                    ));
                    break;
                },
            };
            let ghost before = types::hash_views(ancestors@);
            let ghost cur = current@;
            ancestors.push(current);
            assert(types::hash_views(ancestors@) =~= before.push(cur));
            if is_zero_hash(&header.previous_hash) {
                assert(types::hash_views(ancestors@) =~= before + seq![cur]);
                break;
            }
            current = header.previous_hash;
            proof {
                let rest = ancestors_fuel(s, current@, (fuel - 1) as nat).unwrap();
                assert(before + (seq![cur] + rest) =~= before.push(cur) + rest);
                fuel = (fuel - 1) as nat;
            }
        }
        ancestors
    }

    /// Whether `h` occurs in `hs`.
    fn contains_hash(hs: &Vec<types::Hash>, h: &types::Hash) -> (r: bool)
        ensures
            r == types::hash_views(hs@).contains(h@),
    {
        let mut i: usize = 0;
        while i < hs.len()
            invariant
                i <= hs@.len(),
                forall|j: int| 0 <= j < i ==> hs@[j]@ != h@,
            decreases hs.len() - i,
        {
            if hash_eq(&hs[i], h) {
                assert(types::hash_views(hs@)[i as int] == h@);
                return true;
            }
            i = i + 1;
        }
        assert(!types::hash_views(hs@).contains(h@)) by {
            if types::hash_views(hs@).contains(h@) {
                let j = choose|j: int| 0 <= j < hs@.len() && types::hash_views(hs@)[j] == h@;
                assert(hs@[j]@ == h@);
            }
        }
        false
    }

    /// The first ancestor of `b` (from `b` back) that is also an ancestor of
    /// `a`. Both walks over parents must end.
    pub fn find_common_ancestor(storage: &BlockStorage, a: &types::Hash, b: &types::Hash) -> (r: Option<
        types::Hash,
    >)
        requires
            storage@.wf(),
            ancestors_of(storage@, a@) is Some,
            ancestors_of(storage@, b@) is Some,
        ensures
            first_common(ancestors_of(storage@, a@).unwrap(), ancestors_of(storage@, b@).unwrap()) == match r {
                Some(h) => Some(h@),
                None => None::<Seq<u8>>,
            },
    {
        let ancestors_a = Self::get_ancestors(storage, a);
        let ancestors_b = Self::get_ancestors(storage, b);
        let ghost xs = types::hash_views(ancestors_a@);
        let ghost ys = types::hash_views(ancestors_b@);
        assert(ys.skip(0) =~= ys);
        let mut i: usize = 0;
        while i < ancestors_b.len()
            invariant
                i <= ancestors_b@.len(),
                xs == types::hash_views(ancestors_a@),
                ys == types::hash_views(ancestors_b@),
                ancestors_of(storage@, a@) == Some(xs),
                ancestors_of(storage@, b@) == Some(ys),
                first_common(xs, ys.skip(i as int)) == first_common(xs, ys),
            decreases ancestors_b.len() - i,
        {
            assert(ys.skip(i as int)[0] == ancestors_b@[i as int]@);
            assert(ys.skip(i as int).drop_first() =~= ys.skip(i as int + 1));
            if Self::contains_hash(&ancestors_a, &ancestors_b[i]) {
                assert(ys.skip(i as int).len() > 0);
                assert(xs.contains(ys.skip(i as int)[0]));
                assert(first_common(xs, ys.skip(i as int)) == Some(ancestors_b@[i as int]@));
                return Some(ancestors_b[i]);
            }
            i = i + 1;
        }
        assert(ys.skip(i as int) =~= Seq::<Seq<u8>>::empty());
        None
    }

    /// The candidate with the most cumulative work (the last one among
    /// equals), or `None` for no candidates. Each candidate's work must be
    /// computable and fit in a `u128`.
    #[verifier::spinoff_prover]
    pub fn select_best_chain(storage: &BlockStorage, candidates: &[types::Hash], genesis_difficulty: &Difficulty) -> (r:
        Option<types::Hash>)
        requires
            storage@.wf(),
            forall|i: int|
                0 <= i < candidates@.len() ==> (chain_work(
                    storage@,
                    #[trigger] candidates@[i]@,
                    genesis_difficulty.target@,
                ) matches Some(w) && w <= u128::MAX),
        ensures
            candidates@.len() == 0 ==> r is None,
            candidates@.len() > 0 ==> r == Some(candidates@[best_index(
                storage@,
                types::hash_views(candidates@),
                genesis_difficulty.target@,
                candidates@.len(),
            )]),
    {
        if candidates.len() == 0 {
            return None;
        }
        let ghost s = storage@;
        let ghost cs = types::hash_views(candidates@);
        let ghost g = genesis_difficulty.target@;
        assert(cs[0] == candidates@[0]@);
        let mut best: usize = 0;
        let mut best_work = Self::cumulative_work(storage, &candidates[0], genesis_difficulty);
        proof {
            lemma_best_index_one(s, cs, g);
        }
        let mut i: usize = 1;
        while i < candidates.len()
            invariant
                1 <= i <= candidates@.len(),
                s == storage@,
                g == genesis_difficulty.target@,
                cs.len() == candidates@.len(),
                forall|k: int| 0 <= k < cs.len() ==> #[trigger] cs[k] == candidates@[k]@,
                s.wf(),
                forall|k: int|
                    0 <= k < cs.len() ==> (chain_work(s, #[trigger] cs[k], g) matches Some(w) && w
                        <= u128::MAX),
                best == best_index(s, cs, g, i as nat),
                best < i,
                chain_work(s, cs[best as int], g) == Some(best_work as nat),
            decreases candidates.len() - i,
        {
            assert(cs[i as int] == candidates@[i as int]@);
            let w = Self::cumulative_work(storage, &candidates[i], genesis_difficulty);
            proof {
                lemma_best_index_step(s, cs, g, i as nat);
            }
            if w >= best_work {
                best = i;
                best_work = w;
            }
            i = i + 1;
        }
        Some(candidates[best])
    }

    /// Whether the block reward over all heights up to the tip that hold a
    /// block stays within the maximum supply.
    pub fn verify_supply(storage: &BlockStorage) -> (r: bool)
        requires
            storage@.wf(),
        ensures
            r == (heights_with_blocks(storage@, storage@.tip_height as nat + 1) * BLOCK_REWARD
                <= MAX_SUPPLY),
    {
        let (_, tip_height) = storage.tip();
        let mut total: u64 = 0;
        let mut height: u64 = 0;
        loop
            invariant_except_break
                height <= tip_height,
                tip_height == storage@.tip_height,
                storage@.wf(),
                total == heights_with_blocks(storage@, height as nat) * BLOCK_REWARD,
                total <= MAX_SUPPLY,
            ensures
                height <= tip_height,
                (total > MAX_SUPPLY && heights_with_blocks(storage@, height as nat + 1) * BLOCK_REWARD
                    == total) || (height == tip_height && total <= MAX_SUPPLY && total
                    == heights_with_blocks(storage@, height as nat + 1) * BLOCK_REWARD),
            decreases tip_height - height,
        {
            if storage.has_height(height) {
                total = total + BLOCK_REWARD;
                if total > MAX_SUPPLY {
                    break;
                }
            }
            if height == tip_height {
                break;
            }
            height = height + 1;
        }
        if total > MAX_SUPPLY {
            proof {
                lemma_heights_monotone(storage@, height as nat + 1, tip_height as nat + 1);
            }
            return false;
        }
        true
    }
}

proof fn lemma_heights_monotone(s: StorageView, m: nat, n: nat)
    requires
        m <= n,
    ensures
        heights_with_blocks(s, m) <= heights_with_blocks(s, n),
    decreases n - m,
{
    if m < n {
        lemma_heights_monotone(s, m, (n - 1) as nat);
    }
}


// ---------------------------------------------------------------------------
// Block validation

/// A `Result<(), String>` with the error text as a character sequence.
pub open spec fn result_view(r: Result<(), String>) -> Result<(), Seq<char>> {
    match r {
        Ok(()) => Ok(()),
        Err(e) => Err(e@),
    }
}

/// The checks a block must pass at time `now`, in order; the first that
/// fails names the error. A block whose parent is the zero hash (a genesis
/// block) is exempt from proof of work.
pub open spec fn validation_result(b: BlockView, s: StorageView, target: Seq<u8>, now: u64) -> Result<
    (),
    Seq<char>,
> {
    let prev = b.header.previous_hash@;
    if !(b.header.payload_count == b.payloads.len() && b.payloads.len() <= MAX_PAYLOADS_PER_BLOCK) {
        Err("payload count mismatch"@)
    } else if b.header.merkle_root@ != merkle_root(b.payloads) {
        Err("merkle root mismatch"@)
    } else if prev != zero_hash() && !lex_le(pow_hash_of(b.header, b.nonce), target) {
        Err("insufficient proof of work"@)
    } else if b.payloads.len() > MAX_PAYLOADS_PER_BLOCK {
        Err("too many payloads"@)
    } else if prev != zero_hash() && !s.has(prev) {
        Err("previous block not found"@)
    } else if b.header.timestamp > now + TARGET_BLOCK_TIME_SECS {
        Err("timestamp too far in future"@)
    } else if s.has(prev) && b.header.timestamp <= s.block_of(prev).unwrap().header.timestamp {
        Err("timestamp not increasing"@)
    } else {
        Ok(())
    }
}

impl Consensus {
    /// Validates `block` against the store and the expected difficulty,
    /// reading the clock for the future-timestamp check.
    pub fn validate_block(block: &Block, storage: &BlockStorage, expected_difficulty: &Difficulty) -> (r: Result<
        (),
        String,
    >)
        requires
            storage@.wf(),
        ensures
            exists|now: u64|
                result_view(r) == validation_result(block@, storage@, expected_difficulty.target@, now),
    {
        let current_time = unix_time_secs();
        Self::validate_block_at(block, storage, expected_difficulty, current_time)
    }

    /// Validates `block` against the store and the expected difficulty at
    /// Unix time `current_time`.
    pub fn validate_block_at(
        block: &Block,
        storage: &BlockStorage,
        expected_difficulty: &Difficulty,
        current_time: u64,
    ) -> (r: Result<(), String>)
        requires
            storage@.wf(),
        ensures
            result_view(r) == validation_result(block@, storage@, expected_difficulty.target@, current_time),
    {
        if !block.verify_payload_count() {
            return Err("payload count mismatch".to_owned());
        }
        if !block.verify_merkle_root() {
            return Err("merkle root mismatch".to_owned());
        }
        let prev_is_zero = is_zero_hash(&block.header.previous_hash);
        if !prev_is_zero {
            let pow_hash = block.pow_hash();
            if !expected_difficulty.satisfies(&pow_hash) {
                return Err("insufficient proof of work".to_owned());
            }
        }
        if block.payloads.len() > MAX_PAYLOADS_PER_BLOCK {
            return Err("too many payloads".to_owned());
        }
        let prev_hash = block.header.previous_hash;
        if !prev_is_zero && !storage.has_block(&prev_hash) {
            return Err("previous block not found".to_owned());
        }
        let ts = block.header.timestamp;
        if ts >= TARGET_BLOCK_TIME_SECS && ts - TARGET_BLOCK_TIME_SECS > current_time {
            return Err("timestamp too far in future".to_owned());
        }
        match storage.get_header(&prev_hash) {
            Some(prev_header) => {
                if ts <= prev_header.timestamp {
                    return Err("timestamp not increasing".to_owned());
                }
            },
            None => {},
        }
        Ok(())
    }
}


/// Every 32-byte target carries at least one unit of work.
pub proof fn lemma_block_work_positive(target: Seq<u8>)
    requires
        target.len() == 32,
    ensures
        block_work_of(target) >= 1,
{
    lemma_be_value_bound(target);
    lemma_pow256_16();
    vstd::arithmetic::power::lemma_pow_adds(256, 16, 16);
    let v = be_value(target);
    assert(v <= max_target_value());
    if v != 0 {
        vstd::arithmetic::div_mod::lemma_div_is_ordered(v as int, max_target_value() as int, v as int);
        vstd::arithmetic::div_mod::lemma_div_basics(v as int);
    }
}

/// More steps never change a chain's work once it is worked out.
proof fn lemma_chain_work_fuel_mono(s: StorageView, cur: Seq<u8>, g: Seq<u8>, f1: nat, f2: nat)
    requires
        f1 <= f2,
        chain_work_fuel(s, cur, g, f1) is Some,
    ensures
        chain_work_fuel(s, cur, g, f2) == chain_work_fuel(s, cur, g, f1),
    decreases f1,
{
    if let Some(h) = s.height_of(cur) {
        if h != 0 && f1 > 0 {
            let p = s.block_of(cur).unwrap().header.previous_hash@;
            lemma_chain_work_fuel_mono(s, p, g, (f1 - 1) as nat, (f2 - 1) as nat);
        }
    }
}

/// A stored block adds positive work to its parent's chain, so a chain's
/// work grows with every block and never ends at zero.
pub proof fn lemma_chain_work_grows(s: StorageView, h: Seq<u8>, g: Seq<u8>)
    requires
        s.has(h),
        chain_work(s, h, g) is Some,
        g.len() == 32,
    ensures
        chain_work(s, h, g).unwrap() >= 1,
        s.height_of(h).unwrap() > 0 ==> chain_work(
            s,
            s.block_of(h).unwrap().header.previous_hash@,
            g,
        ) is Some && chain_work(s, h, g).unwrap() > chain_work(
            s,
            s.block_of(h).unwrap().header.previous_hash@,
            g,
        ).unwrap(),
{
    let height = s.height_of(h).unwrap();
    lemma_difficulty_at_len(s, height, g, walk_fuel(s));
    lemma_block_work_positive(difficulty_at(s, height, g).unwrap());
    if height > 0 {
        let p = s.block_of(h).unwrap().header.previous_hash@;
        lemma_chain_work_fuel_mono(s, p, g, (walk_fuel(s) - 1) as nat, walk_fuel(s));
    }
}

/// In a linked store the work of a chain ending at a stored block of height
/// at most `fuel` is worked out within `fuel` steps.
proof fn lemma_chain_work_fuel_defined(s: StorageView, cur: Seq<u8>, g: Seq<u8>, fuel: nat)
    requires
        s.wf(),
        s.linked(),
        s.heights_bounded(),
        height_or_zero(s, cur) <= fuel,
    ensures
        chain_work_fuel(s, cur, g, fuel) is Some,
    decreases fuel,
{
    lemma_difficulty_defined(s, g);
    if let Some(h) = s.height_of(cur) {
        assert(difficulty_at(s, h, g) is Some);
        if h != 0 {
            lemma_stored_parent(s, cur);
            let p = s.block_of(cur).unwrap().header.previous_hash@;
            lemma_chain_work_fuel_defined(s, p, g, (fuel - 1) as nat);
        }
    }
}

/// In a linked store the ancestors of a stored block of height at most
/// `fuel` are listed within `fuel` steps.
proof fn lemma_ancestors_fuel_defined(s: StorageView, cur: Seq<u8>, fuel: nat)
    requires
        s.wf(),
        s.linked(),
        height_or_zero(s, cur) <= fuel,
    ensures
        ancestors_fuel(s, cur, fuel) is Some,
    decreases fuel,
{
    if s.has(cur) {
        lemma_stored_parent(s, cur);
        let p = s.block_of(cur).unwrap().header.previous_hash@;
        if p != zero_hash() {
            lemma_ancestors_fuel_defined(s, p, (fuel - 1) as nat);
        }
    }
}

/// In a linked store whose heights are below its size, every walk over
/// parents ends: each chain's work and each ancestry is worked out.
pub proof fn lemma_walks_defined(s: StorageView, g: Seq<u8>)
    requires
        s.wf(),
        s.linked(),
        s.heights_bounded(),
    ensures
        forall|h: Seq<u8>| #[trigger] chain_work(s, h, g) is Some,
        forall|h: Seq<u8>| #[trigger] ancestors_of(s, h) is Some,
{
    assert forall|h: Seq<u8>| #[trigger] chain_work(s, h, g) is Some by {
        if s.has(h) {
            let k = s.index_of(h);
            assert(s.entries[k].hash == h);
        }
        lemma_chain_work_fuel_defined(s, h, g, walk_fuel(s));
    }
    assert forall|h: Seq<u8>| #[trigger] ancestors_of(s, h) is Some by {
        if s.has(h) {
            let k = s.index_of(h);
            assert(s.entries[k].hash == h);
        }
        lemma_ancestors_fuel_defined(s, h, walk_fuel(s));
    }
}


/// Targets worked out from a 32-byte genesis target have 32 bytes.
pub proof fn lemma_difficulty_at_len(s: StorageView, height: u64, g: Seq<u8>, fuel: nat)
    requires
        g.len() == 32,
    ensures
        difficulty_at_fuel(s, height, g, fuel) matches Some(d) ==> d.len() == 32,
    decreases fuel, 1nat,
{
    if height != 0 {
        if let Some(b) = s.block_at_height(height) {
            lemma_difficulty_for_len(s, height, b.header.previous_hash@, g, fuel);
        }
    }
}

pub proof fn lemma_difficulty_for_len(s: StorageView, height: u64, parent: Seq<u8>, g: Seq<u8>, fuel: nat)
    requires
        g.len() == 32,
    ensures
        difficulty_for_fuel(s, height, parent, g, fuel) matches Some(d) ==> d.len() == 32,
    decreases fuel, 0nat,
{
    if s.has(parent) && fuel > 0 {
        let ph = s.height_of(parent).unwrap();
        lemma_difficulty_at_len(s, ph, g, (fuel - 1) as nat);
    }
}


/// Fork choice picks a candidate with the most chain work: no candidate
/// among the first `n` has more work than the one chosen.
pub proof fn lemma_best_index_is_max(s: StorageView, cs: Seq<Seq<u8>>, g: Seq<u8>, n: nat)
    requires
        1 <= n <= cs.len(),
    ensures
        0 <= best_index(s, cs, g, n) < n,
        forall|i: int|
            0 <= i < n ==> chain_work(s, #[trigger] cs[i], g).unwrap() <= chain_work(
                s,
                cs[best_index(s, cs, g, n)],
                g,
            ).unwrap(),
    decreases n,
{
    lemma_best_index_bounds(s, cs, g, n);
    if n == 1 {
        lemma_best_index_one(s, cs, g);
    } else {
        let m = (n - 1) as nat;
        lemma_best_index_is_max(s, cs, g, m);
        lemma_best_index_step(s, cs, g, m);
    }
}


proof fn lemma_votes_same(a: StorageView, b: StorageView, lo: int, hi: int)
    requires
        a.wf(),
        same_but_payloads(a, b),
    ensures
        votes_between(b, lo, hi) == votes_between(a, lo, hi),
    decreases hi - lo,
{
    lemma_same_but_payloads(a, b);
    if hi > lo {
        lemma_votes_same(a, b, lo, hi - 1);
        assert(b.block_at_height((hi - 1) as u64) is Some == (a.block_at_height((hi - 1) as u64) is Some));
    }
}

proof fn lemma_difficulty_at_same(a: StorageView, b: StorageView, height: u64, g: Seq<u8>, fuel: nat)
    requires
        a.wf(),
        same_but_payloads(a, b),
    ensures
        difficulty_at_fuel(b, height, g, fuel) == difficulty_at_fuel(a, height, g, fuel),
    decreases fuel, 1nat,
{
    lemma_same_but_payloads(a, b);
    if height != 0 {
        assert(b.block_at_height(height) is Some == (a.block_at_height(height) is Some));
        if let Some(bb) = b.block_at_height(height) {
            assert(bb.header == a.block_at_height(height).unwrap().header);
            lemma_difficulty_for_same(a, b, height, bb.header.previous_hash@, g, fuel);
        }
    }
}

proof fn lemma_difficulty_for_same(
    a: StorageView,
    b: StorageView,
    height: u64,
    parent: Seq<u8>,
    g: Seq<u8>,
    fuel: nat,
)
    requires
        a.wf(),
        same_but_payloads(a, b),
    ensures
        difficulty_for_fuel(b, height, parent, g, fuel) == difficulty_for_fuel(a, height, parent, g, fuel),
    decreases fuel, 0nat,
{
    lemma_same_but_payloads(a, b);
    assert(b.has(parent) == a.has(parent));
    assert(b.height_of(parent) == a.height_of(parent));
    if a.has(parent) && fuel > 0 {
        let ph = a.height_of(parent).unwrap();
        lemma_difficulty_at_same(a, b, ph, g, (fuel - 1) as nat);
        lemma_votes_same(a, b, vote_window_start(ph) as int, ph + 1);
    }
}

proof fn lemma_chain_work_fuel_same(a: StorageView, b: StorageView, cur: Seq<u8>, g: Seq<u8>, fuel: nat)
    requires
        a.wf(),
        same_but_payloads(a, b),
    ensures
        chain_work_fuel(b, cur, g, fuel) == chain_work_fuel(a, cur, g, fuel),
    decreases fuel,
{
    lemma_same_but_payloads(a, b);
    assert(b.height_of(cur) == a.height_of(cur));
    if let Some(h) = a.height_of(cur) {
        assert(walk_fuel(b) == walk_fuel(a));
        lemma_difficulty_at_same(a, b, h, g, walk_fuel(a));
        if h != 0 && fuel > 0 {
            assert(b.block_of(cur).unwrap().header == a.block_of(cur).unwrap().header);
            lemma_chain_work_fuel_same(a, b, a.block_of(cur).unwrap().header.previous_hash@, g, (fuel - 1) as nat);
        }
    }
}

/// Payloads and the tip do not enter a chain's work.
pub proof fn lemma_chain_work_same(a: StorageView, b: StorageView, g: Seq<u8>)
    requires
        a.wf(),
        same_but_payloads(a, b),
    ensures
        forall|h: Seq<u8>| #[trigger] chain_work(b, h, g) == chain_work(a, h, g),
{
    assert forall|h: Seq<u8>| #[trigger] chain_work(b, h, g) == chain_work(a, h, g) by {
        lemma_chain_work_fuel_same(a, b, h, g, walk_fuel(a));
    }
}


/// A chain's work is the work of its last block, at the target in force at
/// that block's height, plus the work of the chain ending at its parent; a
/// hash that is not stored ends a chain of no work.
pub proof fn lemma_chain_work_step(s: StorageView, h: Seq<u8>, g: Seq<u8>)
    requires
        chain_work(s, h, g) is Some,
    ensures
        !s.has(h) ==> chain_work(s, h, g) == Some(0nat),
        s.has(h) && s.height_of(h).unwrap() > 0 ==> {
            let p = s.block_of(h).unwrap().header.previous_hash@;
            &&& chain_work(s, p, g) is Some
            &&& chain_work(s, h, g).unwrap() == block_work_of(difficulty_at(s, s.height_of(h).unwrap(), g).unwrap())
                + chain_work(s, p, g).unwrap()
        },
        s.has(h) && s.height_of(h).unwrap() == 0 ==> chain_work(s, h, g).unwrap() == block_work_of(
            difficulty_at(s, 0, g).unwrap(),
        ),
{
    if s.has(h) && s.height_of(h).unwrap() > 0 {
        let p = s.block_of(h).unwrap().header.previous_hash@;
        lemma_chain_work_fuel_mono(s, p, g, (walk_fuel(s) - 1) as nat, walk_fuel(s));
    }
}


proof fn lemma_lex_split(a: Seq<u8>, b: Seq<u8>)
    requires
        a.len() == b.len(),
        a.len() > 0,
    ensures
        lex_lt(a, b) <==> (lex_lt(a.drop_last(), b.drop_last()) || (a.drop_last() == b.drop_last() && a.last()
            < b.last())),
{
    let n = a.len() - 1;
    let a1 = a.drop_last();
    let b1 = b.drop_last();
    if lex_lt(a, b) {
        let k = choose|k: int| 0 <= k < a.len() && k < b.len() && #[trigger] same_prefix(a, b, k) && a[k] < b[k];
        if k < n {
            assert(same_prefix(a1, b1, k));
            assert(a1[k] < b1[k]);
        } else {
            assert(a1 =~= b1) by {
                assert forall|j: int| 0 <= j < n implies a1[j] == b1[j] by {
                    assert(a[j] == b[j]);
                }
            }
        }
    }
    if lex_lt(a1, b1) {
        let k = choose|k: int| 0 <= k < a1.len() && k < b1.len() && #[trigger] same_prefix(a1, b1, k) && a1[k] < b1[k];
        assert forall|j: int| 0 <= j < k implies a[j] == b[j] by {
            assert(a1[j] == b1[j]);
        }
        assert(same_prefix(a, b, k));
    }
    if a1 == b1 && a.last() < b.last() {
        assert forall|j: int| 0 <= j < n implies a[j] == b[j] by {
            assert(a1[j] == b1[j]);
        }
        assert(same_prefix(a, b, n));
    }
}

/// For byte strings of one length, the lexicographic order is the order of
/// their big-endian values.
pub proof fn lemma_lex_is_numeric(a: Seq<u8>, b: Seq<u8>)
    requires
        a.len() == b.len(),
    ensures
        lex_lt(a, b) <==> be_value(a) < be_value(b),
        lex_le(a, b) <==> be_value(a) <= be_value(b),
    decreases a.len(),
{
    if a.len() == 0 {
        assert(a =~= b);
        assert(!lex_lt(a, b));
    } else {
        let a1 = a.drop_last();
        let b1 = b.drop_last();
        lemma_lex_is_numeric(a1, b1);
        lemma_lex_split(a, b);
        lemma_lex_split(b, a);
        let va = be_value(a1);
        let vb = be_value(b1);
        let la = a.last() as int;
        let lb = b.last() as int;
        assert(be_value(a) == va * 256 + la);
        assert(be_value(b) == vb * 256 + lb);
        if va < vb {
            assert(va * 256 + la < vb * 256 + lb) by (nonlinear_arith)
                requires
                    va < vb,
                    0 <= la < 256,
                    0 <= lb < 256,
            ;
        } else if vb < va {
            assert(vb * 256 + lb < va * 256 + la) by (nonlinear_arith)
                requires
                    vb < va,
                    0 <= la < 256,
                    0 <= lb < 256,
            ;
        } else {
            assert(!lex_lt(a1, b1) && !lex_lt(b1, a1));
            if a1 != b1 {
                lemma_lex_total(a1, b1);
            }
            assert(a1 == b1);
            if la == lb {
                assert(a =~= b) by {
                    assert forall|j: int| 0 <= j < a.len() implies a[j] == b[j] by {
                        if j < a.len() - 1 {
                            assert(a1[j] == b1[j]);
                        }
                    }
                }
            }
        }
    }
}

/// Two byte strings of one length are equal or one comes first.
pub proof fn lemma_lex_total(a: Seq<u8>, b: Seq<u8>)
    requires
        a.len() == b.len(),
    ensures
        a == b || lex_lt(a, b) || lex_lt(b, a),
    decreases a.len(),
{
    if a.len() == 0 {
        assert(a =~= b);
    } else {
        let a1 = a.drop_last();
        let b1 = b.drop_last();
        lemma_lex_total(a1, b1);
        lemma_lex_split(a, b);
        lemma_lex_split(b, a);
        if a1 == b1 && a.last() == b.last() {
            assert(a =~= b) by {
                assert forall|j: int| 0 <= j < a.len() implies a[j] == b[j] by {
                    if j < a.len() - 1 {
                        assert(a1[j] == b1[j]);
                    }
                }
            }
        }
    }
}


/// A harder target never counts as less work: a target of lower
/// big-endian value carries at least as much work.
pub proof fn lemma_block_work_monotone(t1: Seq<u8>, t2: Seq<u8>)
    requires
        be_value(t1) <= be_value(t2),
    ensures
        block_work_of(t1) >= block_work_of(t2),
{
    let v1 = be_value(t1);
    let v2 = be_value(t2);
    if v1 != 0 {
        vstd::arithmetic::div_mod::lemma_div_is_ordered_by_denominator(max_target_value() as int, v1 as int, v2 as int);
    }
}


proof fn lemma_difficulty_at_fuel_mono(s: StorageView, height: u64, g: Seq<u8>, f1: nat, f2: nat)
    requires
        f1 <= f2,
        difficulty_at_fuel(s, height, g, f1) is Some,
    ensures
        difficulty_at_fuel(s, height, g, f2) == difficulty_at_fuel(s, height, g, f1),
    decreases f1, 1nat,
{
    if height != 0 {
        if let Some(b) = s.block_at_height(height) {
            lemma_difficulty_for_fuel_mono(s, height, b.header.previous_hash@, g, f1, f2);
        }
    }
}

proof fn lemma_difficulty_for_fuel_mono(s: StorageView, height: u64, parent: Seq<u8>, g: Seq<u8>, f1: nat, f2: nat)
    requires
        f1 <= f2,
        difficulty_for_fuel(s, height, parent, g, f1) is Some,
    ensures
        difficulty_for_fuel(s, height, parent, g, f2) == difficulty_for_fuel(s, height, parent, g, f1),
    decreases f1, 0nat,
{
    if s.has(parent) && f1 > 0 {
        let ph = s.height_of(parent).unwrap();
        lemma_difficulty_at_fuel_mono(s, ph, g, (f1 - 1) as nat, (f2 - 1) as nat);
    }
}

/// Off the adjustment heights, the target for a block on the tip is the
/// target in force at the tip's height.
pub proof fn lemma_next_difficulty(s: StorageView, g: Seq<u8>)
    requires
        s.height_of(s.tip_hash) == Some(s.tip_height),
        s.tip_height < u64::MAX,
        ((s.tip_height + 1) as u64) % DIFFICULTY_ADJUSTMENT_PERIOD != 0,
        difficulty_for(s, (s.tip_height + 1) as u64, s.tip_hash, g) is Some,
    ensures
        difficulty_for(s, (s.tip_height + 1) as u64, s.tip_hash, g) == difficulty_at(s, s.tip_height, g),
{
    lemma_difficulty_at_fuel_mono(s, s.tip_height, g, (walk_fuel(s) - 1) as nat, walk_fuel(s));
}


/// 2^256 - 1, the largest value a 32-byte target can hold.
pub open spec fn max_target_value() -> nat {
    0xffff_ffff_ffff_ffff_ffff_ffff_ffff_ffff_ffff_ffff_ffff_ffff_ffff_ffff_ffff_ffffnat
}

/// 2^i.
pub open spec fn two_to(i: nat) -> int
    decreases i,
{
    if i == 0 {
        1
    } else {
        2 * two_to((i - 1) as nat)
    }
}

proof fn lemma_two_to_add(a: nat, b: nat)
    ensures
        two_to(a + b) == two_to(a) * two_to(b),
    decreases b,
{
    if b > 0 {
        lemma_two_to_add(a, (b - 1) as nat);
        assert(two_to(a + b) == 2 * two_to((a + b - 1) as nat));
        assert(two_to(a) * (2 * two_to((b - 1) as nat)) == 2 * (two_to(a) * two_to((b - 1) as nat))) by (nonlinear_arith);
    }
}

proof fn lemma_two_to_256()
    ensures
        two_to(256) == max_target_value() + 1,
{
    reveal_with_fuel(two_to, 9);
    assert(two_to(8) == 256);
    lemma_two_to_add(8, 8);
    lemma_two_to_add(16, 16);
    lemma_two_to_add(32, 32);
    lemma_two_to_add(64, 64);
    lemma_two_to_add(128, 128);
    assert(two_to(16) == 0x1_0000);
    assert(two_to(32) == 0x1_0000int * 0x1_0000int);
    assert(two_to(32) == 0x1_0000_0000);
    assert(two_to(64) == 0x1_0000_0000int * 0x1_0000_0000int);
    assert(two_to(64) == 0x1_0000_0000_0000_0000);
    assert(two_to(128) == 0x1_0000_0000_0000_0000int * 0x1_0000_0000_0000_0000int);
    assert(two_to(128) == 0x1_0000_0000_0000_0000_0000_0000_0000_0000);
    assert(two_to(256) == 0x1_0000_0000_0000_0000_0000_0000_0000_0000int
        * 0x1_0000_0000_0000_0000_0000_0000_0000_0000int);
}

proof fn lemma_two_to_positive(i: nat)
    ensures
        1 <= two_to(i),
    decreases i,
{
    if i > 0 {
        lemma_two_to_positive((i - 1) as nat);
    }
}

proof fn lemma_two_to_mono(i: nat, j: nat)
    requires
        i <= j,
    ensures
        1 <= two_to(i) <= two_to(j),
    decreases j,
{
    lemma_two_to_positive(i);
    if i < j {
        lemma_two_to_mono(i, (j - 1) as nat);
    }
}

/// The big-endian value of a concatenation.
proof fn lemma_be_value_append(a: Seq<u8>, b: Seq<u8>)
    ensures
        be_value(a + b) == be_value(a) * vstd::arithmetic::power::pow(256, b.len()) + be_value(b),
    decreases b.len(),
{
    if b.len() == 0 {
        assert(a + b =~= a);
        vstd::arithmetic::power::lemma_pow0(256);
    } else {
        let b1 = b.drop_last();
        lemma_be_value_append(a, b1);
        assert((a + b).drop_last() =~= a + b1);
        let p = vstd::arithmetic::power::pow(256, b1.len());
        vstd::arithmetic::power::lemma_pow_adds(256, b1.len(), 1);
        vstd::arithmetic::power::lemma_pow1(256);
        let x = be_value(a);
        let y = be_value(b1);
        assert((x * p + y) * 256 + (b.last() as int) == x * (p * 256) + (y * 256 + (b.last() as int))) by (nonlinear_arith);
    }
}

/// floor((2^256 - 1) / (vh * 2^128 + vl)), for a divisor of at least 2^128.
fn div_max_by(vh: u128, vl: u128) -> (q: u128)
    requires
        vh >= 1,
    ensures
        q as int == max_target_value() as int / (vh * 0x1_0000_0000_0000_0000_0000_0000_0000_0000int + vl),
{
    let ghost two128: int = 0x1_0000_0000_0000_0000_0000_0000_0000_0000int;
    let ghost v: int = vh * two128 + vl;
    let half: u128 = 0x8000_0000_0000_0000_0000_0000_0000_0000u128;
    let mut q: u128 = 0;
    let mut rh: u128 = 0;
    let mut rl: u128 = 0;
    let ghost mut n: int = 0;
    let mut i: u32 = 0;
    proof {
        lemma_two_to_256();
    }
    while i < 256
        invariant
            i <= 256,
            two128 == 0x1_0000_0000_0000_0000_0000_0000_0000_0000int,
            v == vh * two128 + vl,
            vh >= 1,
            half == 0x8000_0000_0000_0000_0000_0000_0000_0000u128,
            n + 1 == two_to(i as nat),
            two_to(256) == max_target_value() + 1,
            q * v + (rh * two128 + rl) == n,
            rh * two128 + rl < v,
        decreases 256 - i,
    {
        proof {
            lemma_two_to_mono((i + 1) as nat, 256);
        }
        let ghost r: int = rh * two128 + rl;
        let top_h = rh >= half;
        let top_l = rl >= half;
        let nl: u128 = if top_l {
            (rl - half) * 2 + 1
        } else {
            rl * 2 + 1
        };
        let nh0: u128 = if top_h {
            (rh - half) * 2
        } else {
            rh * 2
        };
        let nh: u128 = if top_l {
            nh0 + 1
        } else {
            nh0
        };
        let ghost c: int = if top_h { 1 } else { 0 };
        let ghost r2: int = c * two128 * two128 + nh * two128 + nl;
        assert(r2 == 2 * r + 1);
        let ghost n2: int = 2 * n + 1;
        assert(n2 + 1 == two_to((i + 1) as nat));
        if top_h || nh > vh || (nh == vh && nl >= vl) {
            assert(r2 >= v);
            let sl: u128;
            let borrow: bool;
            if nl >= vl {
                sl = nl - vl;
                borrow = false;
            } else {
                sl = nl + (u128::MAX - vl) + 1;
                borrow = true;
            }
            let ghost b: int = if borrow { 1 } else { 0 };
            let ghost th: int = c * two128 + nh - vh - b;
            assert(r2 - v == th * two128 + sl);
            assert(r2 - v < v);
            assert(0 <= th < two128);
            let sh: u128 = if top_h {
                let base = nh + (u128::MAX - vh);
                if borrow {
                    base
                } else {
                    base + 1
                }
            } else {
                if borrow {
                    nh - vh - 1
                } else {
                    nh - vh
                }
            };
            assert(sh == th);
            proof {
                let qq = q as int;
                assert((2 * qq + 1) * v + (r2 - v) == 2 * (qq * v + r) + 1) by (nonlinear_arith)
                    requires
                        r2 == 2 * r + 1,
                ;
                assert((2 * qq + 1) * v <= n2);
                assert(2 * qq + 1 < two128) by (nonlinear_arith)
                    requires
                        (2 * qq + 1) * v <= n2,
                        n2 < two128 * two128,
                        v >= two128,
                        two128 > 0,
                        qq >= 0,
                ;
            }
            q = q * 2 + 1;
            rh = sh;
            rl = sl;
        } else {
            assert(!top_h);
            assert(r2 < v);
            proof {
                let qq = q as int;
                assert((2 * qq) * v + r2 == 2 * (qq * v + r) + 1) by (nonlinear_arith)
                    requires
                        r2 == 2 * r + 1,
                ;
                assert(2 * qq < two128) by (nonlinear_arith)
                    requires
                        (2 * qq) * v <= n2,
                        n2 < two128 * two128,
                        v >= two128,
                        two128 > 0,
                        qq >= 0,
                ;
            }
            q = q * 2;
            rh = nh;
            rl = nl;
        }
        proof {
            n = n2;
        }
        i = i + 1;
    }
    proof {
        vstd::arithmetic::div_mod::lemma_fundamental_div_mod_converse(
            max_target_value() as int,
            v,
            q as int,
            rh * two128 + rl,
        );
    }
    q
}


// ---------------------------------------------------------------------------
// Laws of the ancestry walk

/// A walk that ends within `f1` steps ends, with the same hashes, within
/// any larger number of steps.
proof fn lemma_ancestors_fuel_mono(s: StorageView, x: Seq<u8>, f1: nat, f2: nat)
    requires
        ancestors_fuel(s, x, f1) is Some,
        f1 <= f2,
    ensures
        ancestors_fuel(s, x, f2) == ancestors_fuel(s, x, f1),
    decreases f1,
{
    if let Some(b) = s.block_of(x) {
        let p = b.header.previous_hash@;
        if p != zero_hash() {
            lemma_ancestors_fuel_mono(s, p, (f1 - 1) as nat, (f2 - 1) as nat);
        }
    }
}

/// The walk from the `i`-th hash of a walk is the rest of that walk.
proof fn lemma_ancestors_suffix(s: StorageView, x: Seq<u8>, f: nat, i: int)
    requires
        ancestors_fuel(s, x, f) is Some,
        0 <= i < ancestors_fuel(s, x, f).unwrap().len(),
    ensures
        ancestors_fuel(s, ancestors_fuel(s, x, f).unwrap()[i], f) == Some(
            ancestors_fuel(s, x, f).unwrap().skip(i),
        ),
    decreases f,
{
    let w = ancestors_fuel(s, x, f).unwrap();
    if i == 0 {
        assert(w.skip(0) =~= w);
    } else {
        let b = s.block_of(x).unwrap();
        let p = b.header.previous_hash@;
        let rest = ancestors_fuel(s, p, (f - 1) as nat).unwrap();
        assert(w == seq![x] + rest);
        lemma_ancestors_suffix(s, p, (f - 1) as nat, i - 1);
        assert(w[i] == rest[i - 1]);
        assert(w.skip(i) =~= rest.skip(i - 1));
        lemma_ancestors_fuel_mono(s, rest[i - 1], (f - 1) as nat, f);
    }
}

/// A walk that ends never meets the same hash twice.
proof fn lemma_ancestors_distinct(s: StorageView, x: Seq<u8>, f: nat, i: int, k: int)
    requires
        ancestors_fuel(s, x, f) is Some,
        0 <= i < k < ancestors_fuel(s, x, f).unwrap().len(),
    ensures
        ancestors_fuel(s, x, f).unwrap()[i] != ancestors_fuel(s, x, f).unwrap()[k],
{
    let w = ancestors_fuel(s, x, f).unwrap();
    lemma_ancestors_suffix(s, x, f, i);
    lemma_ancestors_suffix(s, x, f, k);
    if w[i] == w[k] {
        assert(w.skip(i).len() != w.skip(k).len());
    }
}

/// What `first_common` returns: the first element of `ys` that occurs in
/// `xs`, or `None` when none does.
proof fn lemma_first_common_char(xs: Seq<Seq<u8>>, ys: Seq<Seq<u8>>)
    ensures
        first_common(xs, ys) is None <==> forall|j: int| 0 <= j < ys.len() ==> !xs.contains(#[trigger] ys[j]),
        first_common(xs, ys) matches Some(y) ==> exists|j: int|
            0 <= j < ys.len() && #[trigger] ys[j] == y && xs.contains(y) && forall|j2: int|
                0 <= j2 < j ==> !xs.contains(#[trigger] ys[j2]),
    decreases ys.len(),
{
    if ys.len() > 0 && !xs.contains(ys[0]) {
        let zs = ys.drop_first();
        lemma_first_common_char(xs, zs);
        assert forall|j: int| 0 <= j < zs.len() implies #[trigger] zs[j] == ys[j + 1] by {}
        if first_common(xs, zs) is None {
            assert forall|j: int| 0 <= j < ys.len() implies !xs.contains(#[trigger] ys[j]) by {
                if j > 0 {
                    assert(zs[j - 1] == ys[j]);
                }
            }
        } else {
            let y = first_common(xs, zs).unwrap();
            let j = choose|j: int|
                0 <= j < zs.len() && #[trigger] zs[j] == y && xs.contains(y) && forall|j2: int|
                    0 <= j2 < j ==> !xs.contains(#[trigger] zs[j2]);
            assert(ys[j + 1] == y);
            assert forall|j2: int| 0 <= j2 < j + 1 implies !xs.contains(#[trigger] ys[j2]) by {
                if j2 > 0 {
                    assert(zs[j2 - 1] == ys[j2]);
                }
            }
        }
    } else if ys.len() > 0 {
        assert(ys[0] == ys[0]);
    }
}

/// The common ancestor of two hashes is the same whichever is named first,
/// and a hash that is itself an ancestor of the other is their common
/// ancestor.
pub proof fn lemma_common_ancestor_symmetric(s: StorageView, a: Seq<u8>, b: Seq<u8>)
    requires
        ancestors_of(s, a) is Some,
        ancestors_of(s, b) is Some,
    ensures
        first_common(ancestors_of(s, a).unwrap(), ancestors_of(s, b).unwrap()) == first_common(
            ancestors_of(s, b).unwrap(),
            ancestors_of(s, a).unwrap(),
        ),
        ancestors_of(s, b).unwrap().contains(a) ==> first_common(
            ancestors_of(s, a).unwrap(),
            ancestors_of(s, b).unwrap(),
        ) == Some(a),
{
    let f = walk_fuel(s);
    let xs = ancestors_of(s, a).unwrap();
    let ys = ancestors_of(s, b).unwrap();
    lemma_first_common_char(xs, ys);
    lemma_first_common_char(ys, xs);
    if first_common(xs, ys) is None {
        assert forall|i: int| 0 <= i < xs.len() implies !ys.contains(#[trigger] xs[i]) by {
            if ys.contains(xs[i]) {
                let j = choose|j: int| 0 <= j < ys.len() && ys[j] == xs[i];
                assert(xs.contains(ys[j]));
            }
        }
        if ys.contains(a) {
            let j = choose|j: int| 0 <= j < ys.len() && ys[j] == a;
            lemma_ancestors_suffix(s, b, f, j);
            assert(xs == ys.skip(j));
            assert(xs[0] == a);
            assert(xs.contains(ys[j]));
        }
    } else {
        let y = first_common(xs, ys).unwrap();
        let j = choose|j: int|
            0 <= j < ys.len() && #[trigger] ys[j] == y && xs.contains(y) && forall|j2: int|
                0 <= j2 < j ==> !xs.contains(#[trigger] ys[j2]);
        let i = choose|i: int| 0 <= i < xs.len() && xs[i] == y;
        assert(ys.contains(xs[i]));
        let x = first_common(ys, xs).unwrap();
        let i2 = choose|i2: int|
            0 <= i2 < xs.len() && #[trigger] xs[i2] == x && ys.contains(x) && forall|k: int|
                0 <= k < i2 ==> !ys.contains(#[trigger] xs[k]);
        let j2 = choose|j2: int| 0 <= j2 < ys.len() && ys[j2] == x;
        assert(xs.contains(ys[j2]));
        assert(i2 <= i);
        assert(j <= j2);
        lemma_ancestors_suffix(s, a, f, i);
        lemma_ancestors_suffix(s, b, f, j);
        assert(xs.skip(i) == ys.skip(j));
        assert(ys.skip(j)[j2 - j] == x);
        assert(xs[i + (j2 - j)] == x);
        if i2 != i + (j2 - j) {
            lemma_ancestors_distinct(s, a, f, i2, i + (j2 - j));
        }
        assert(x == y);
        if ys.contains(a) {
            let k = choose|k: int| 0 <= k < ys.len() && ys[k] == a;
            lemma_ancestors_suffix(s, b, f, k);
            assert(xs == ys.skip(k));
            assert(xs[0] == a);
            assert(xs.contains(ys[k]));
            assert(j <= k);
            assert(xs.contains(ys[j]));
            let m = choose|m: int| 0 <= m < xs.len() && xs[m] == ys[j];
            assert(ys[k + m] == ys[j]);
            if j < k {
                lemma_ancestors_distinct(s, b, f, j, k + m);
            }
            assert(y == a);
        }
    }
}


// ---------------------------------------------------------------------------
// Laws of validation

/// The proof-of-work check reads the block's own nonce: a block off the zero
/// parent whose payload count and Merkle root are right fails with
/// "insufficient proof of work" exactly when the scrypt hash of its header
/// together with its nonce is above the target.
pub proof fn lemma_pow_check_uses_own_nonce(b: BlockView, s: StorageView, target: Seq<u8>, now: u64)
    requires
        b.header.payload_count == b.payloads.len(),
        b.payloads.len() <= MAX_PAYLOADS_PER_BLOCK,
        b.header.merkle_root@ == merkle_root(b.payloads),
        b.header.previous_hash@ != zero_hash(),
    ensures
        (validation_result(b, s, target, now) == Err::<(), Seq<char>>("insufficient proof of work"@))
            <==> !lex_le(pow_hash_of(b.header, b.nonce), target),
{
    reveal_strlit("insufficient proof of work");
    reveal_strlit("too many payloads");
    reveal_strlit("previous block not found");
    reveal_strlit("timestamp too far in future");
    reveal_strlit("timestamp not increasing");
    assert("insufficient proof of work"@.len() == 26);
    assert("too many payloads"@.len() != 26);
    assert("previous block not found"@.len() != 26);
    assert("timestamp too far in future"@.len() != 26);
    assert("timestamp not increasing"@.len() != 26);
}

/// A block whose nonce meets the target, as the nonce search returns it,
/// is never turned down for its proof of work at that target; and when its
/// parent is stored, it is older than its timestamp and that timestamp is at
/// most two minutes ahead of the clock, it is accepted.
pub proof fn lemma_mined_block_passes(b: BlockView, s: StorageView, target: Seq<u8>, now: u64)
    requires
        b.header.payload_count == b.payloads.len(),
        b.payloads.len() <= MAX_PAYLOADS_PER_BLOCK,
        b.header.merkle_root@ == merkle_root(b.payloads),
        lex_le(pow_hash_of(b.header, b.nonce), target),
    ensures
        validation_result(b, s, target, now) != Err::<(), Seq<char>>("insufficient proof of work"@),
        b.header.previous_hash@ != zero_hash() && s.has(b.header.previous_hash@) && b.header.timestamp
            <= now + TARGET_BLOCK_TIME_SECS && s.block_of(b.header.previous_hash@).unwrap().header.timestamp
            < b.header.timestamp ==> validation_result(b, s, target, now) == Ok::<(), Seq<char>>(()),
{
    reveal_strlit("insufficient proof of work");
    reveal_strlit("payload count mismatch");
    reveal_strlit("merkle root mismatch");
    assert("payload count mismatch"@.len() != 26);
    assert("merkle root mismatch"@.len() != 26);
    reveal_strlit("too many payloads");
    reveal_strlit("previous block not found");
    reveal_strlit("timestamp too far in future");
    reveal_strlit("timestamp not increasing");
    assert("insufficient proof of work"@.len() == 26);
    assert("too many payloads"@.len() != 26);
    assert("previous block not found"@.len() != 26);
    assert("timestamp too far in future"@.len() != 26);
    assert("timestamp not increasing"@.len() != 26);
}

/// A block is accepted exactly when every check passes: its payload count is
/// right and within the limit, its Merkle root is that of its payloads, and,
/// off the zero parent, the scrypt hash of its header and its own nonce meets
/// the target and its parent is stored; its timestamp is at most two minutes
/// ahead of the clock and later than a stored parent's.
pub proof fn lemma_validation_accepts(b: BlockView, s: StorageView, target: Seq<u8>, now: u64)
    ensures
        validation_result(b, s, target, now) is Ok <==> {
            let prev = b.header.previous_hash@;
            &&& b.header.payload_count == b.payloads.len()
            &&& b.payloads.len() <= MAX_PAYLOADS_PER_BLOCK
            &&& b.header.merkle_root@ == merkle_root(b.payloads)
            &&& prev != zero_hash() ==> lex_le(pow_hash_of(b.header, b.nonce), target) && s.has(prev)
            &&& b.header.timestamp <= now + TARGET_BLOCK_TIME_SECS
            &&& s.has(prev) ==> s.block_of(prev).unwrap().header.timestamp < b.header.timestamp
        },
{
}

} // verus!
