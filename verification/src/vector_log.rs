//! The vector log: append-only, ordinal-addressable embedding storage.
//!
//! Entries are fixed width: a log of dimension `d` stores each embedding
//! as `d` lanes of 4 little-endian bytes, so entry `i` occupies byte
//! offsets `i*d*4 .. (i+1)*d*4` of the serialized log and random access
//! by ordinal is O(1). The fixed width also makes a partial append
//! detectable at recovery time: a byte image whose length is not a whole
//! number of entries is rejected, never silently truncated or padded.

use vstd::prelude::*;
use vstd::bytes::{lemma_auto_spec_u32_to_from_le_bytes, spec_u32_from_le_bytes,
    spec_u32_to_le_bytes, u32_from_le_bytes, u32_to_le_bytes};
use vstd::slice::slice_subrange;
use crate::encoder::MAX_DIM;
use crate::error::StoreError;
use crate::record::push_all;
use crate::similarity::embeddings_of;

verus! {

/// Append-only store of embeddings, ordinal-indexed in append order.
pub struct VectorLog {
    /// The fixed dimension every stored embedding must have.
    pub dim: usize,
    /// The stored embeddings, in append order.
    pub entries: Vec<Vec<u32>>,
}

impl View for VectorLog {
    type V = Seq<Seq<u32>>;

    open spec fn view(&self) -> Seq<Seq<u32>> {
        embeddings_of(self.entries@)
    }
}

/// The serialized form of one entry: each lane as 4 little-endian bytes.
pub open spec fn spec_entry_bytes(e: Seq<u32>) -> Seq<u8>
    decreases e.len(),
{
    if e.len() == 0 {
        Seq::empty()
    } else {
        spec_u32_to_le_bytes(e[0]) + spec_entry_bytes(e.skip(1))
    }
}

/// The serialized form of a whole log: its entries' bytes, in order,
/// with nothing in between.
pub open spec fn spec_log_bytes(es: Seq<Seq<u32>>) -> Seq<u8>
    decreases es.len(),
{
    if es.len() == 0 {
        Seq::empty()
    } else {
        spec_entry_bytes(es[0]) + spec_log_bytes(es.skip(1))
    }
}

/// Serializing one more lane appends its 4 bytes.
pub proof fn lemma_entry_bytes_push(e: Seq<u32>, x: u32)
    ensures
        spec_entry_bytes(e.push(x)) == spec_entry_bytes(e) + spec_u32_to_le_bytes(x),
    decreases e.len(),
{
    if e.len() == 0 {
        assert(e.push(x)[0] == x);
        assert(e.push(x).skip(1) =~= Seq::<u32>::empty());
        assert(spec_entry_bytes(Seq::<u32>::empty()) == Seq::<u8>::empty());
        assert(spec_entry_bytes(e) =~= Seq::<u8>::empty());
        assert(spec_entry_bytes(e.push(x)) =~= spec_u32_to_le_bytes(x) + Seq::<u8>::empty());
        assert(spec_u32_to_le_bytes(x) + Seq::<u8>::empty() =~= spec_u32_to_le_bytes(x));
        assert(spec_entry_bytes(e) + spec_u32_to_le_bytes(x) =~= spec_u32_to_le_bytes(x));
    } else {
        lemma_entry_bytes_push(e.skip(1), x);
        assert(e.push(x)[0] == e[0]);
        assert(e.push(x).skip(1) =~= e.skip(1).push(x));
        assert(spec_u32_to_le_bytes(e[0]) + (spec_entry_bytes(e.skip(1)) + spec_u32_to_le_bytes(x))
            =~= (spec_u32_to_le_bytes(e[0]) + spec_entry_bytes(e.skip(1))) + spec_u32_to_le_bytes(
            x,
        ));
    }
}

/// Serializing one more entry appends its bytes.
pub proof fn lemma_log_bytes_push(es: Seq<Seq<u32>>, e: Seq<u32>)
    ensures
        spec_log_bytes(es.push(e)) == spec_log_bytes(es) + spec_entry_bytes(e),
    decreases es.len(),
{
    if es.len() == 0 {
        assert(es.push(e)[0] == e);
        assert(es.push(e).skip(1) =~= Seq::<Seq<u32>>::empty());
        assert(spec_log_bytes(Seq::<Seq<u32>>::empty()) == Seq::<u8>::empty());
        assert(spec_log_bytes(es.push(e)) =~= spec_entry_bytes(e));
        assert(spec_log_bytes(es) + spec_entry_bytes(e) =~= spec_entry_bytes(e));
    } else {
        lemma_log_bytes_push(es.skip(1), e);
        assert(es.push(e)[0] == es[0]);
        assert(es.push(e).skip(1) =~= es.skip(1).push(e));
        assert(spec_entry_bytes(es[0]) + (spec_log_bytes(es.skip(1)) + spec_entry_bytes(e))
            =~= (spec_entry_bytes(es[0]) + spec_log_bytes(es.skip(1))) + spec_entry_bytes(e));
    }
}

/// One entry serializes to exactly 4 bytes per lane.
pub proof fn lemma_entry_bytes_len(e: Seq<u32>)
    ensures
        spec_entry_bytes(e).len() == 4 * e.len(),
    decreases e.len(),
{
    lemma_auto_spec_u32_to_from_le_bytes();
    if e.len() > 0 {
        lemma_entry_bytes_len(e.skip(1));
    }
}

/// A log whose entries all have dimension `dim` serializes to exactly
/// `4 * dim` bytes per entry.
pub proof fn lemma_log_bytes_len(es: Seq<Seq<u32>>, dim: int)
    requires
        forall|i: int| 0 <= i < es.len() ==> (#[trigger] es[i]).len() == dim,
    ensures
        spec_log_bytes(es).len() == es.len() * 4 * dim,
    decreases es.len(),
{
    if es.len() == 0 {
        assert(spec_log_bytes(es).len() == 0);
        assert(es.len() * 4 * dim == 0) by (nonlinear_arith)
            requires
                es.len() == 0,
        {}
    } else {
        lemma_entry_bytes_len(es[0]);
        assert(es[0].len() == dim);
        assert(spec_entry_bytes(es[0]).len() == 4 * dim);
        assert(forall|i: int|
            0 <= i < es.skip(1).len() ==> (#[trigger] es.skip(1)[i]).len() == dim);
        lemma_log_bytes_len(es.skip(1), dim);
        assert(spec_log_bytes(es).len() == 4 * dim + (es.len() - 1) * 4 * dim);
        assert(4 * dim + (es.len() - 1) * 4 * dim == es.len() * 4 * dim) by (nonlinear_arith);
    }
}

/// Entry serialization is injective: equal bytes from equal-length
/// entries mean equal entries.
pub proof fn lemma_entry_bytes_injective(e1: Seq<u32>, e2: Seq<u32>)
    requires
        e1.len() == e2.len(),
        spec_entry_bytes(e1) == spec_entry_bytes(e2),
    ensures
        e1 == e2,
    decreases e1.len(),
{
    if e1.len() == 0 {
        assert(e1 =~= e2);
    } else {
        lemma_auto_spec_u32_to_from_le_bytes();
        let b1 = spec_u32_to_le_bytes(e1[0]);
        let b2 = spec_u32_to_le_bytes(e2[0]);
        assert(b1 =~= spec_entry_bytes(e1).take(4));
        assert(b2 =~= spec_entry_bytes(e2).take(4));
        assert(spec_u32_from_le_bytes(b1) == spec_u32_from_le_bytes(b2));
        assert(e1[0] == e2[0]);
        assert(spec_entry_bytes(e1).skip(4) =~= spec_entry_bytes(e1.skip(1)));
        assert(spec_entry_bytes(e2).skip(4) =~= spec_entry_bytes(e2.skip(1)));
        lemma_entry_bytes_injective(e1.skip(1), e2.skip(1));
        assert forall|i: int| 0 <= i < e1.len() implies e1[i] == e2[i] by {
            if i > 0 {
                assert(e1[i] == e1.skip(1)[i - 1]);
                assert(e2[i] == e2.skip(1)[i - 1]);
            }
        }
        assert(e1 =~= e2);
    }
}

/// Log serialization at a fixed dimension is injective: the durable
/// byte form of a well-formed vector log determines the log, so
/// recovery can never confuse two different logs.
pub proof fn lemma_log_bytes_injective(l1: Seq<Seq<u32>>, l2: Seq<Seq<u32>>, dim: int)
    requires
        1 <= dim,
        forall|i: int| 0 <= i < l1.len() ==> (#[trigger] l1[i]).len() == dim,
        forall|i: int| 0 <= i < l2.len() ==> (#[trigger] l2[i]).len() == dim,
        spec_log_bytes(l1) == spec_log_bytes(l2),
    ensures
        l1 == l2,
    decreases l1.len(),
{
    lemma_log_bytes_len(l1, dim);
    lemma_log_bytes_len(l2, dim);
    assert(l1.len() == l2.len()) by (nonlinear_arith)
        requires
            1 <= dim,
            l1.len() * 4 * dim == l2.len() * 4 * dim,
    {}
    if l1.len() == 0 {
        assert(l1 =~= l2);
    } else {
        lemma_entry_bytes_len(l1[0]);
        lemma_entry_bytes_len(l2[0]);
        assert(spec_entry_bytes(l1[0]) =~= spec_log_bytes(l1).take(4 * dim));
        assert(spec_entry_bytes(l2[0]) =~= spec_log_bytes(l2).take(4 * dim));
        lemma_entry_bytes_injective(l1[0], l2[0]);
        assert(spec_log_bytes(l1).skip(4 * dim) =~= spec_log_bytes(l1.skip(1)));
        assert(spec_log_bytes(l2).skip(4 * dim) =~= spec_log_bytes(l2.skip(1)));
        assert(forall|i: int|
            0 <= i < l1.skip(1).len() ==> (#[trigger] l1.skip(1)[i]).len() == dim);
        assert(forall|i: int|
            0 <= i < l2.skip(1).len() ==> (#[trigger] l2.skip(1)[i]).len() == dim);
        lemma_log_bytes_injective(l1.skip(1), l2.skip(1), dim);
        assert forall|i: int| 0 <= i < l1.len() implies l1[i] == l2[i] by {
            if i > 0 {
                assert(l1[i] == l1.skip(1)[i - 1]);
                assert(l2[i] == l2.skip(1)[i - 1]);
            }
        }
        assert(l1 =~= l2);
    }
}

impl VectorLog {
    /// A vector log is well formed when its dimension is in range and
    /// every stored entry has exactly that dimension.
    pub open spec fn wf(self) -> bool {
        &&& 1 <= self.dim <= MAX_DIM
        &&& forall|i: int| 0 <= i < self@.len() ==> (#[trigger] self@[i]).len() == self.dim
    }

    /// Creates an empty log with the given fixed dimension.
    pub fn new(dim: usize) -> (log: VectorLog)
        requires
            1 <= dim <= MAX_DIM,
        ensures
            log.wf(),
            log.dim == dim,
            log@.len() == 0,
    {
        VectorLog { dim, entries: Vec::new() }
    }

    /// How many embeddings the log holds.
    pub fn count(&self) -> (n: usize)
        ensures
            n == self@.len(),
    {
        self.entries.len()
    }

    /// Appends one embedding at the next free ordinal and returns that
    /// ordinal. Ordinals are assigned in order, without gaps or
    /// duplicates: the new entry lands at the old count, and nothing
    /// already stored moves.
    pub fn append(&mut self, e: Vec<u32>) -> (ordinal: usize)
        requires
            old(self).wf(),
            e@.len() == old(self).dim,
            old(self)@.len() < usize::MAX,
        ensures
            final(self).wf(),
            final(self).dim == old(self).dim,
            final(self)@ == old(self)@ + seq![e@],
            ordinal == old(self)@.len(),
    {
        let ordinal = self.entries.len();
        self.entries.push(e);
        proof {
            assert(self@ =~= old(self)@ + seq![e@]);
        }
        ordinal
    }

    /// The embedding stored at an ordinal.
    pub fn get(&self, ordinal: usize) -> (e: &Vec<u32>)
        requires
            ordinal < self@.len(),
        ensures
            e@ == self@[ordinal as int],
    {
        &self.entries[ordinal]
    }

    /// All stored embeddings, in ordinal order: the snapshot a
    /// brute-force search scans.
    pub fn snapshot(&self) -> (es: &Vec<Vec<u32>>)
        ensures
            embeddings_of(es@) == self@,
    {
        &self.entries
    }

    /// Serializes the whole log into its durable byte form.
    pub fn to_bytes(&self) -> (bytes: Vec<u8>)
        ensures
            bytes@ == spec_log_bytes(self@),
    {
        let mut bytes: Vec<u8> = Vec::new();
        let n = self.entries.len();
        let mut i: usize = 0;
        proof {
            assert(self@.take(0) =~= Seq::<Seq<u32>>::empty());
        }
        while i < n
            invariant
                n == self.entries@.len(),
                n == self@.len(),
                i <= n,
                self@ == embeddings_of(self.entries@),
                bytes@ == spec_log_bytes(self@.take(i as int)),
            decreases n - i,
        {
            let eb = entry_bytes(&self.entries[i]);
            push_all(&mut bytes, &eb);
            proof {
                assert(self@.take(i + 1) =~= self@.take(i as int).push(self@[i as int]));
                lemma_log_bytes_push(self@.take(i as int), self@[i as int]);
            }
            i += 1;
        }
        proof {
            assert(self@.take(n as int) =~= self@);
        }
        bytes
    }

    /// Rebuilds a log of the given dimension from its durable byte form.
    /// Succeeds exactly when the bytes hold a whole number of fixed-width
    /// entries, and then returns the one log that serializes back to
    /// those bytes; anything else is a detected partial write.
    pub fn from_bytes(dim: usize, bytes: &Vec<u8>) -> (out: Result<VectorLog, StoreError>)
        requires
            1 <= dim <= MAX_DIM,
        ensures
            match out {
                Ok(log) => {
                    &&& log.wf()
                    &&& log.dim == dim
                    &&& spec_log_bytes(log@) == bytes@
                    &&& bytes@.len() == log@.len() * dim * 4
                },
                Err(e) => {
                    &&& e == StoreError::TruncatedEntry
                    &&& bytes@.len() as int % (dim * 4) != 0
                },
            },
    {
        let entry_width = dim * 4;
        let rem = bytes.len() % entry_width;
        proof {
            vstd::arithmetic::div_mod::lemma_fundamental_div_mod(
                bytes@.len() as int,
                entry_width as int,
            );
        }
        if rem != 0 {
            return Err(StoreError::TruncatedEntry);
        }
        let count = bytes.len() / entry_width;
        let n = bytes.len();
        let mut entries: Vec<Vec<u32>> = Vec::new();
        let mut off: usize = 0;
        let mut e: usize = 0;
        proof {
            let ni = n as int;
            let ei = entry_width as int;
            assert(ni % ei == 0);
            vstd::arithmetic::div_mod::lemma_fundamental_div_mod(ni, ei);
            assert(ni == ei * (ni / ei) + ni % ei);
            assert(ni == ei * (ni / ei));
            assert(count as int == ni / ei);
            assert(ni == ei * (count as int));
            assert(count * entry_width == entry_width * count) by (nonlinear_arith);
            assert(n == count * entry_width);
            assert(bytes@.take(0) =~= Seq::<u8>::empty());
            assert(spec_log_bytes(embeddings_of(entries@)) == Seq::<u8>::empty());
        }
        while e < count
            invariant
                1 <= dim <= MAX_DIM,
                entry_width == dim * 4,
                n == bytes@.len(),
                n == count * entry_width,
                e <= count,
                off <= n,
                off == e * entry_width,
                entries@.len() == e,
                forall|i: int|
                    0 <= i < entries@.len() ==> (#[trigger] entries@[i])@.len() == dim,
                spec_log_bytes(embeddings_of(entries@)) == bytes@.take(off as int),
            decreases count - e,
        {
            let mut cur: Vec<u32> = Vec::new();
            let mut l: usize = 0;
            let ghost entry_start = off as int;
            proof {
                assert(cur@ =~= Seq::<u32>::empty());
                assert(spec_entry_bytes(Seq::<u32>::empty()) == Seq::<u8>::empty());
                assert(bytes@.subrange(entry_start, entry_start) =~= Seq::<u8>::empty());
            }
            while l < dim
                invariant
                    1 <= dim <= MAX_DIM,
                    entry_width == dim * 4,
                    n == bytes@.len(),
                    n == count * entry_width,
                    e < count,
                    l <= dim,
                    off <= n,
                    off == entry_start + l * 4,
                    entry_start == e * entry_width,
                    cur@.len() == l,
                    spec_entry_bytes(cur@) == bytes@.subrange(entry_start, off as int),
                decreases dim - l,
            {
                proof {
                    assert(off + 4 <= n) by (nonlinear_arith)
                        requires
                            e < count,
                            l < dim,
                            entry_width == dim * 4,
                            entry_start == e * entry_width,
                            off == entry_start + l * 4,
                            n == count * entry_width,
                    {}
                }
                let lane_bytes = slice_subrange(bytes.as_slice(), off, off + 4);
                let lane = u32_from_le_bytes(lane_bytes);
                proof {
                    lemma_auto_spec_u32_to_from_le_bytes();
                    lemma_entry_bytes_push(cur@, lane);
                    assert(bytes@.subrange(entry_start, off + 4) =~= bytes@.subrange(
                        entry_start,
                        off as int,
                    ) + bytes@.subrange(off as int, off + 4));
                }
                cur.push(lane);
                off += 4;
                l += 1;
            }
            let ghost done = embeddings_of(entries@);
            let ghost full = cur@;
            proof {
                lemma_log_bytes_push(done, full);
                assert(bytes@.take(off as int) =~= bytes@.take(entry_start) + bytes@.subrange(
                    entry_start,
                    off as int,
                ));
                assert(off == (e + 1) * entry_width) by (nonlinear_arith)
                    requires
                        off == e * entry_width + dim * 4,
                        entry_width == dim * 4,
                {}
            }
            entries.push(cur);
            proof {
                assert(embeddings_of(entries@) =~= done.push(full));
            }
            e += 1;
        }
        proof {
            assert(bytes@.take(n as int) =~= bytes@);
            assert(count * dim * 4 == count * entry_width) by (nonlinear_arith)
                requires
                    entry_width == dim * 4,
            {}
        }
        Ok(VectorLog { dim, entries })
    }
}

/// Serializes one embedding as fixed-width little-endian lane bytes.
pub fn entry_bytes(e: &Vec<u32>) -> (bytes: Vec<u8>)
    ensures
        bytes@ == spec_entry_bytes(e@),
{
    let mut bytes: Vec<u8> = Vec::new();
    let n = e.len();
    let mut i: usize = 0;
    proof {
        assert(e@.take(0) =~= Seq::<u32>::empty());
    }
    while i < n
        invariant
            n == e@.len(),
            i <= n,
            bytes@ == spec_entry_bytes(e@.take(i as int)),
        decreases n - i,
    {
        let lane = u32_to_le_bytes(e[i]);
        push_all(&mut bytes, &lane);
        proof {
            assert(e@.take(i + 1) =~= e@.take(i as int).push(e@[i as int]));
            lemma_entry_bytes_push(e@.take(i as int), e@[i as int]);
        }
        i += 1;
    }
    proof {
        assert(e@.take(n as int) =~= e@);
    }
    bytes
}

} // verus!
