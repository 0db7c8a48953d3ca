//! The store: ingestion and query orchestration over the two logs.
//!
//! A store owns one vector log and one metadata log and keeps them
//! positionally correlated: the embedding at ordinal `i` of the vector
//! log is always the embedding of the record on line `i` of the metadata
//! log. One ingest appends to both logs as a single logical unit — the
//! store is accessed through exclusive references, so no reader can
//! observe one log advanced past the other. Queries rank against a
//! snapshot whose two halves hold exactly the same ordinals.

use vstd::prelude::*;
use crate::codec::{lemma_parse_encode_line, spec_encode_line, spec_parse_line};
use crate::encoder::{MAX_DIM, embed, spec_embed};
use crate::error::StoreError;
use crate::metadata_log::MetadataLog;
use crate::record::{Record, RecordModel, models_of};
use crate::similarity::{is_ranking, lemma_ranking_unique, search};
use crate::vector_log::VectorLog;

verus! {

/// An embedding-indexed append-only record store.
pub struct Store {
    /// The fixed embedding dimension, chosen at creation for the
    /// store's whole lifetime.
    pub dim: usize,
    /// The vector log: one embedding per ingested record.
    pub vectors: VectorLog,
    /// The metadata log: one encoded record per ingested record.
    pub metadata: MetadataLog,
}

/// The records that a ranked sequence of ordinals resolves to, in
/// ranking order: each ordinal's metadata line parsed, with malformed
/// lines skipped so the result is correspondingly shorter.
pub open spec fn spec_resolve(lines: Seq<Seq<u8>>, ordinals: Seq<usize>) -> Seq<RecordModel>
    decreases ordinals.len(),
{
    if ordinals.len() == 0 {
        Seq::empty()
    } else {
        let rest = spec_resolve(lines, ordinals.skip(1));
        match spec_parse_line(lines[ordinals[0] as int]) {
            Some(model) => seq![model] + rest,
            None => rest,
        }
    }
}

/// Resolving one more ordinal appends its outcome.
pub proof fn lemma_resolve_push(lines: Seq<Seq<u8>>, ordinals: Seq<usize>, o: usize)
    ensures
        spec_resolve(lines, ordinals.push(o)) == spec_resolve(lines, ordinals) + (
        match spec_parse_line(lines[o as int]) {
            Some(model) => seq![model],
            None => Seq::<RecordModel>::empty(),
        }),
    decreases ordinals.len(),
{
    if ordinals.len() == 0 {
        assert(ordinals.push(o)[0] == o);
        assert(ordinals.push(o).skip(1) =~= Seq::<usize>::empty());
        assert(spec_resolve(lines, Seq::<usize>::empty()) == Seq::<RecordModel>::empty());
        match spec_parse_line(lines[o as int]) {
            Some(model) => {
                assert(spec_resolve(lines, ordinals.push(o)) =~= seq![model]);
                assert(spec_resolve(lines, ordinals) + seq![model] =~= seq![model]);
            },
            None => {
                assert(spec_resolve(lines, ordinals.push(o)) =~= Seq::<RecordModel>::empty());
                assert(spec_resolve(lines, ordinals) + Seq::<RecordModel>::empty()
                    =~= Seq::<RecordModel>::empty());
            },
        }
    } else {
        lemma_resolve_push(lines, ordinals.skip(1), o);
        assert(ordinals.push(o)[0] == ordinals[0]);
        assert(ordinals.push(o).skip(1) =~= ordinals.skip(1).push(o));
        let rest = spec_resolve(lines, ordinals.skip(1));
        let tail = match spec_parse_line(lines[o as int]) {
            Some(model) => seq![model],
            None => Seq::<RecordModel>::empty(),
        };
        match spec_parse_line(lines[ordinals[0] as int]) {
            Some(model) => {
                assert(seq![model] + (rest + tail) =~= (seq![model] + rest) + tail);
            },
            None => {},
        }
    }
}

impl Store {
    /// Structural well-formedness: the dimension is in range, both logs
    /// are well formed, the vector log carries the store's dimension,
    /// and — the join-key guarantee — both logs hold the same number of
    /// ordinals.
    pub open spec fn wf(self) -> bool {
        &&& 1 <= self.dim <= MAX_DIM
        &&& self.vectors.dim == self.dim
        &&& self.vectors.wf()
        &&& self.metadata.wf()
        &&& self.vectors@.len() == self.metadata@.len()
    }

    /// The core correspondence invariant: at every ordinal, the metadata
    /// line parses back to a record and the stored vector is exactly
    /// that record's embedding. It holds of every store built by
    /// ingestion alone; recovering externally corrupted logs can break
    /// it for single ordinals, which queries then skip per line.
    pub open spec fn consistent(self) -> bool {
        forall|i: int|
            0 <= i < self.vectors@.len() ==> {
                &&& spec_parse_line(#[trigger] self.metadata@[i]) is Some
                &&& self.vectors@[i] == spec_embed(
                    spec_parse_line(self.metadata@[i])->Some_0.combined_text(),
                    self.dim as nat,
                )
            }
    }

    /// Creates an empty store with the given fixed embedding dimension.
    pub fn new(dim: usize) -> (s: Store)
        requires
            1 <= dim <= MAX_DIM,
        ensures
            s.wf(),
            s.consistent(),
            s.dim == dim,
            s.vectors@.len() == 0,
            s.metadata@.len() == 0,
    {
        Store { dim, vectors: VectorLog::new(dim), metadata: MetadataLog::new() }
    }

    /// Assembles a store from recovered logs. Succeeds exactly when the
    /// two logs agree on how many ordinals they hold; a count mismatch
    /// means the ordinal correspondence is broken and is reported, never
    /// papered over.
    pub fn from_parts(dim: usize, vectors: VectorLog, metadata: MetadataLog) -> (out: Result<
        Store,
        StoreError,
    >)
        requires
            1 <= dim <= MAX_DIM,
            vectors.wf(),
            vectors.dim == dim,
            metadata.wf(),
        ensures
            match out {
                Ok(s) => {
                    &&& vectors@.len() == metadata@.len()
                    &&& s == (Store { dim, vectors, metadata })
                    &&& s.wf()
                },
                Err(e) => {
                    &&& e == StoreError::LogCountMismatch
                    &&& vectors@.len() != metadata@.len()
                },
            },
    {
        if vectors.count() != metadata.count() {
            return Err(StoreError::LogCountMismatch);
        }
        Ok(Store { dim, vectors, metadata })
    }

    /// How many records are stored. Both logs hold exactly this many
    /// ordinals.
    pub fn count(&self) -> (n: usize)
        requires
            self.wf(),
        ensures
            n == self.vectors@.len(),
            n == self.metadata@.len(),
    {
        self.vectors.count()
    }

    /// Ingests one record: encodes its text and appends the embedding
    /// and the record to the two logs as one logical unit, at the same
    /// fresh ordinal, which is returned.
    ///
    /// Both counts grow by exactly one — never less, never more — and
    /// nothing already stored moves, so correspondence at existing
    /// ordinals is untouched and established at the new one: a
    /// consistent store stays consistent.
    pub fn ingest_one(&mut self, r: &Record) -> (ordinal: usize)
        requires
            old(self).wf(),
            r@.wf(),
            old(self).vectors@.len() < usize::MAX,
        ensures
            final(self).wf(),
            final(self).dim == old(self).dim,
            final(self).vectors@ == old(self).vectors@ + seq![
                spec_embed(r@.combined_text(), old(self).dim as nat),
            ],
            final(self).metadata@ == old(self).metadata@ + seq![spec_encode_line(r@)],
            ordinal == old(self).vectors@.len(),
            final(self).vectors@.len() == old(self).vectors@.len() + 1,
            final(self).metadata@.len() == old(self).metadata@.len() + 1,
            old(self).consistent() ==> final(self).consistent(),
    {
        let text = r.combined_text();
        let e = embed(&text, self.dim);
        let ordinal = self.vectors.append(e);
        let _ = self.metadata.append(r);
        proof {
            if old(self).consistent() {
                lemma_parse_encode_line(r@);
                assert forall|i: int| 0 <= i < self.vectors@.len() implies {
                    &&& spec_parse_line(#[trigger] self.metadata@[i]) is Some
                    &&& self.vectors@[i] == spec_embed(
                        spec_parse_line(self.metadata@[i])->Some_0.combined_text(),
                        self.dim as nat,
                    )
                } by {
                    if i < old(self).vectors@.len() {
                        assert(self.metadata@[i] == old(self).metadata@[i]);
                        assert(self.vectors@[i] == old(self).vectors@[i]);
                    } else {
                        assert(self.metadata@[i] == spec_encode_line(r@));
                        assert(self.vectors@[i] == spec_embed(
                            r@.combined_text(),
                            self.dim as nat,
                        ));
                    }
                }
            }
        }
        ordinal
    }

    /// Ingests a batch of records, one dual-append per record, in order,
    /// and returns the assigned ordinals: a gapless run starting at the
    /// old count. In-memory appends cannot fail halfway, so the whole
    /// batch lands; a durable layer that can fail mid-batch stops at the
    /// first failure and reports how many records succeeded, which this
    /// per-record contract makes well defined.
    pub fn ingest_many(&mut self, rs: &Vec<Record>) -> (ordinals: Vec<usize>)
        requires
            old(self).wf(),
            forall|i: int| 0 <= i < rs@.len() ==> (#[trigger] rs@[i])@.wf(),
            old(self).vectors@.len() + rs@.len() <= usize::MAX,
        ensures
            final(self).wf(),
            final(self).dim == old(self).dim,
            final(self).vectors@ == old(self).vectors@ + models_of(rs@).map_values(
                |m: RecordModel| spec_embed(m.combined_text(), old(self).dim as nat),
            ),
            final(self).metadata@ == old(self).metadata@ + models_of(rs@).map_values(
                |m: RecordModel| spec_encode_line(m),
            ),
            ordinals@.len() == rs@.len(),
            forall|j: int|
                0 <= j < ordinals@.len() ==> #[trigger] ordinals@[j] == old(
                    self,
                ).vectors@.len() + j,
            final(self).vectors@.len() == old(self).vectors@.len() + rs@.len(),
            old(self).consistent() ==> final(self).consistent(),
    {
        let ghost embeds = models_of(rs@).map_values(
            |m: RecordModel| spec_embed(m.combined_text(), old(self).dim as nat),
        );
        let ghost lines = models_of(rs@).map_values(|m: RecordModel| spec_encode_line(m));
        let n = rs.len();
        let mut ordinals: Vec<usize> = Vec::new();
        let mut i: usize = 0;
        proof {
            assert(self.vectors@ =~= old(self).vectors@ + embeds.take(0));
            assert(self.metadata@ =~= old(self).metadata@ + lines.take(0));
        }
        while i < n
            invariant
                n == rs@.len(),
                i <= n,
                embeds == models_of(rs@).map_values(
                    |m: RecordModel| spec_embed(m.combined_text(), old(self).dim as nat),
                ),
                lines == models_of(rs@).map_values(|m: RecordModel| spec_encode_line(m)),
                forall|t: int| 0 <= t < rs@.len() ==> (#[trigger] rs@[t])@.wf(),
                old(self).vectors@.len() + rs@.len() <= usize::MAX,
                self.wf(),
                self.dim == old(self).dim,
                self.vectors@ == old(self).vectors@ + embeds.take(i as int),
                self.metadata@ == old(self).metadata@ + lines.take(i as int),
                ordinals@.len() == i,
                forall|j: int|
                    0 <= j < i ==> #[trigger] ordinals@[j] == old(self).vectors@.len() + j,
                old(self).consistent() ==> self.consistent(),
            decreases n - i,
        {
            let ordinal = self.ingest_one(&rs[i]);
            ordinals.push(ordinal);
            proof {
                assert(embeds.take(i + 1) =~= embeds.take(i as int).push(embeds[i as int]));
                assert(lines.take(i + 1) =~= lines.take(i as int).push(lines[i as int]));
                assert(self.vectors@ =~= old(self).vectors@ + embeds.take(i + 1));
                assert(self.metadata@ =~= old(self).metadata@ + lines.take(i + 1));
            }
            i += 1;
        }
        proof {
            assert(embeds.take(n as int) =~= embeds);
            assert(lines.take(n as int) =~= lines);
        }
        ordinals
    }

    /// Ranks the stored embeddings against an already-encoded query
    /// embedding. A query of the wrong dimension is a caller-side
    /// programming error, reported loudly — exactly when the dimensions
    /// differ — and never silently coerced.
    pub fn search(&self, query: &Vec<u32>, k: usize) -> (out: Result<Vec<usize>, StoreError>)
        requires
            self.wf(),
        ensures
            match out {
                Ok(ordinals) => {
                    &&& query@.len() == self.dim
                    &&& is_ranking(query@, self.vectors@, k as int, ordinals@)
                },
                Err(e) => {
                    &&& e == StoreError::DimensionMismatch
                    &&& query@.len() != self.dim
                },
            },
    {
        if query.len() != self.dim {
            return Err(StoreError::DimensionMismatch);
        }
        let entries = self.vectors.snapshot();
        proof {
            assert forall|i: int| 0 <= i < entries@.len() implies (#[trigger] entries@[i])@.len()
                == query@.len() by {
                assert(self.vectors@[i] == entries@[i]@);
            }
        }
        Ok(search(query, entries, k))
    }

    /// Searches by text: encodes the query, ranks every stored embedding
    /// against it on a snapshot whose two halves cover the same
    /// ordinals, resolves the ranked ordinals against the metadata log,
    /// and returns the records best match first — ranking order, not
    /// storage order. A record whose metadata line is malformed is
    /// skipped and the result is correspondingly shorter, never an
    /// error.
    pub fn query_by_text(&self, text: &Vec<u8>, k: usize) -> (out: Vec<Record>)
        requires
            self.wf(),
        ensures
            exists|ordinals: Seq<usize>|
                {
                    &&& #[trigger] is_ranking(
                        spec_embed(text@, self.dim as nat),
                        self.vectors@,
                        k as int,
                        ordinals,
                    )
                    &&& models_of(out@) == spec_resolve(self.metadata@, ordinals)
                },
            forall|j: int| 0 <= j < out@.len() ==> (#[trigger] out@[j])@.wf(),
            out@.len() <= vstd::math::min(k as int, self.vectors@.len() as int),
    {
        let q = embed(text, self.dim);
        let ordinals = match self.search(&q, k) {
            Ok(o) => o,
            Err(_) => {
                // unreachable: the store's own encoder fixes the dimension
                Vec::new()
            },
        };
        let m = ordinals.len();
        let mut out: Vec<Record> = Vec::new();
        let mut j: usize = 0;
        proof {
            assert(models_of(out@) =~= spec_resolve(self.metadata@, ordinals@.take(0)));
        }
        while j < m
            invariant
                self.wf(),
                m == ordinals@.len(),
                j <= m,
                is_ranking(spec_embed(text@, self.dim as nat), self.vectors@, k as int, ordinals@),
                models_of(out@) == spec_resolve(self.metadata@, ordinals@.take(j as int)),
                forall|t: int| 0 <= t < out@.len() ==> (#[trigger] out@[t])@.wf(),
                out@.len() <= j,
            decreases m - j,
        {
            let o = ordinals[j];
            proof {
                assert(ordinals@[j as int] < self.vectors@.len());
            }
            let ghost out0 = out@;
            match self.metadata.record_at(o) {
                Ok(rec) => {
                    out.push(rec);
                },
                Err(_) => {},
            }
            proof {
                lemma_resolve_push(self.metadata@, ordinals@.take(j as int), o);
                assert(ordinals@.take(j + 1) =~= ordinals@.take(j as int).push(o));
                match spec_parse_line(self.metadata@[o as int]) {
                    Some(model) => {
                        assert(models_of(out@) =~= models_of(out0) + seq![model]);
                    },
                    None => {
                        assert(models_of(out@) + Seq::<RecordModel>::empty() =~= models_of(out@));
                    },
                }
            }
            j += 1;
        }
        proof {
            assert(ordinals@.take(m as int) =~= ordinals@);
        }
        out
    }

    /// Reads are idempotent: with no intervening writes, two text
    /// queries with the same text and the same `k` resolve to identical
    /// ordered results, because the ranking their outcomes are resolved
    /// through is unique.
    pub proof fn lemma_query_idempotent(
        self,
        text: Seq<u8>,
        k: int,
        ordinals1: Seq<usize>,
        ordinals2: Seq<usize>,
        out1: Seq<RecordModel>,
        out2: Seq<RecordModel>,
    )
        requires
            is_ranking(spec_embed(text, self.dim as nat), self.vectors@, k, ordinals1),
            is_ranking(spec_embed(text, self.dim as nat), self.vectors@, k, ordinals2),
            out1 == spec_resolve(self.metadata@, ordinals1),
            out2 == spec_resolve(self.metadata@, ordinals2),
        ensures
            out1 == out2,
    {
        lemma_ranking_unique(
            spec_embed(text, self.dim as nat),
            self.vectors@,
            k,
            ordinals1,
            ordinals2,
        );
    }
}

} // verus!
