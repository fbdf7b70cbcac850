//! The proof-of-work search that the mining loop runs.

use vstd::prelude::*;
use crate::types::{Block, Difficulty, lex_le, pow_hash_of};

verus! {

/// Tries nonces 0, 1, 2, ... (below `u64::MAX`) on `block` and returns it with
/// the first nonce whose proof-of-work hash meets `difficulty`; `None` when
/// no nonce does.
pub fn search_nonce(candidate: Block, difficulty: &Difficulty) -> (r: Option<Block>)
    ensures
        r matches Some(b) ==> b.header == candidate.header && b.payloads@ == candidate.payloads@ && lex_le(
            pow_hash_of(b.header, b.nonce),
            difficulty.target@,
        ) && forall|m: u64| m < b.nonce ==> !lex_le(#[trigger] pow_hash_of(b.header, m), difficulty.target@),
        r is None ==> forall|m: u64|
            m < u64::MAX ==> !lex_le(#[trigger] pow_hash_of(candidate.header, m), difficulty.target@),
{
    let ghost header = candidate.header;
    let ghost payloads = candidate.payloads@;
    let mut block = candidate;
    let mut nonce: u64 = 0;
    while nonce < u64::MAX
        invariant
            header == candidate.header,
            payloads == candidate.payloads@,
            block.header == header,
            block.payloads@ == payloads,
            forall|m: u64| m < nonce ==> !lex_le(#[trigger] pow_hash_of(header, m), difficulty.target@),
        decreases u64::MAX - nonce,
    {
        block.nonce = nonce;
        let pow = block.pow_hash();
        if difficulty.satisfies(&pow) {
            assert(lex_le(pow_hash_of(block.header, block.nonce), difficulty.target@));
            assert(block.header == candidate.header);
            assert(block.payloads@ == candidate.payloads@);
            assert(forall|m: u64| m < block.nonce ==> !lex_le(#[trigger] pow_hash_of(block.header, m), difficulty.target@));
            return Some(block);
        }
        nonce = nonce + 1;
    }
    None
}

} // verus!
