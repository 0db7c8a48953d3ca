//! Deterministic text-to-embedding encoder.
//!
//! The encoder maps a byte text to a fixed-dimension vector of unsigned
//! 32-bit lanes. Lane `j` records whether any byte of the text falls in
//! residue class `j` modulo the dimension, so the embedding is a bounded
//! bag-of-bytes presence vector. The modelling technique itself is not
//! the point; what the rest of the store relies on is the contract: the
//! output is a pure function of the text, always has exactly the
//! requested dimension, and is produced for every input including the
//! empty text.

use vstd::prelude::*;

verus! {

/// Largest embedding dimension a store accepts. The bound keeps every
/// distance computation comfortably inside a 64-bit accumulator.
pub const MAX_DIM: usize = 65536;

/// The embedding of `text` at dimension `dim`: lane `j` is 1 exactly when
/// some byte of the text is congruent to `j` modulo `dim`, and 0 otherwise.
pub open spec fn spec_embed(text: Seq<u8>, dim: nat) -> Seq<u32> {
    Seq::new(
        dim,
        |j: int|
            if exists|i: int|
                0 <= i < text.len() && #[trigger] text[i] as int % (dim as int) == j {
                1u32
            } else {
                0u32
            },
    )
}

/// Encodes a text as a fixed-dimension embedding.
///
/// Deterministic and total: the result is a pure function of `text` and
/// `dim`, of length exactly `dim`, for every input including the empty
/// text.
pub fn embed(text: &Vec<u8>, dim: usize) -> (e: Vec<u32>)
    requires
        1 <= dim <= MAX_DIM,
    ensures
        e@ == spec_embed(text@, dim as nat),
        e@.len() == dim,
{
    let mut e: Vec<u32> = Vec::new();
    let mut j: usize = 0;
    while j < dim
        invariant
            j <= dim,
            e@.len() == j,
            forall|t: int| 0 <= t < j ==> e@[t] == 0u32,
        decreases dim - j,
    {
        e.push(0u32);
        j += 1;
    }
    let n = text.len();
    let mut i: usize = 0;
    while i < n
        invariant
            1 <= dim,
            n == text@.len(),
            i <= n,
            e@.len() == dim,
            forall|t: int|
                0 <= t < dim ==> e@[t] == (if exists|b: int|
                    0 <= b < i && #[trigger] text@[b] as int % (dim as int) == t {
                    1u32
                } else {
                    0u32
                }),
        decreases n - i,
    {
        let lane = (text[i] as usize) % dim;
        proof {
            assert(text@[i as int] as int % (dim as int) == lane as int);
        }
        e.set(lane, 1u32);
        proof {
            assert forall|t: int| 0 <= t < dim implies e@[t] == (if exists|b: int|
                0 <= b < i + 1 && #[trigger] text@[b] as int % (dim as int) == t {
                1u32
            } else {
                0u32
            }) by {
                if t == lane as int {
                    assert(text@[i as int] as int % (dim as int) == t);
                } else {
                    assert forall|b: int|
                        0 <= b < i + 1 && #[trigger] text@[b] as int % (dim as int)
                            == t implies b < i by {}
                }
            }
        }
        i += 1;
    }
    proof {
        assert(e@ =~= spec_embed(text@, dim as nat));
    }
    e
}

} // verus!
