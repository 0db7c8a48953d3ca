//! The metadata log: append-only, line-oriented record storage.
//!
//! One encoded record per line, ordinal-indexed by line position. Reads
//! degrade gracefully: a malformed line is reported as a per-line parse
//! failure and never blocks access to the rest of the log.

use vstd::prelude::*;
use crate::codec::{NEWLINE, ParseError, encode_line, lemma_encode_line_no_newline, lemma_split_concat,
    lemma_split_len, lemma_split_parts_clean, parse_line, spec_encode_line, spec_parse_line,
    spec_split, split_at, views_of};
use crate::record::{Record, push_all};

verus! {

/// A byte sequence free of raw newlines, so it fits on one log line.
pub open spec fn line_clean(line: Seq<u8>) -> bool {
    forall|j: int| 0 <= j < line.len() ==> #[trigger] line[j] != NEWLINE
}

/// Append-only store of records, one encoded record per line.
pub struct MetadataLog {
    /// The stored lines, in append order, without their terminators.
    pub lines: Vec<Vec<u8>>,
}

impl View for MetadataLog {
    type V = Seq<Seq<u8>>;

    open spec fn view(&self) -> Seq<Seq<u8>> {
        views_of(self.lines@)
    }
}

/// The durable byte form of a metadata log: each line followed by one
/// newline terminator.
pub open spec fn spec_meta_bytes(lines: Seq<Seq<u8>>) -> Seq<u8>
    decreases lines.len(),
{
    if lines.len() == 0 {
        Seq::empty()
    } else {
        lines[0] + seq![NEWLINE] + spec_meta_bytes(lines.skip(1))
    }
}

/// Serializing one more line appends its bytes and a newline.
pub proof fn lemma_meta_bytes_push(lines: Seq<Seq<u8>>, line: Seq<u8>)
    ensures
        spec_meta_bytes(lines.push(line)) == spec_meta_bytes(lines) + line + seq![NEWLINE],
    decreases lines.len(),
{
    if lines.len() == 0 {
        assert(lines.push(line)[0] == line);
        assert(lines.push(line).skip(1) =~= Seq::<Seq<u8>>::empty());
        assert(spec_meta_bytes(Seq::<Seq<u8>>::empty()) == Seq::<u8>::empty());
        assert(spec_meta_bytes(lines.push(line)) =~= spec_meta_bytes(lines) + line + seq![NEWLINE]);
    } else {
        lemma_meta_bytes_push(lines.skip(1), line);
        assert(lines.push(line)[0] == lines[0]);
        assert(lines.push(line).skip(1) =~= lines.skip(1).push(line));
        assert(lines[0] + seq![NEWLINE] + (spec_meta_bytes(lines.skip(1)) + line + seq![NEWLINE])
            =~= (lines[0] + seq![NEWLINE] + spec_meta_bytes(lines.skip(1))) + line + seq![NEWLINE]);
    }
}

/// The lines a recovered byte image holds: the parts between newlines.
/// The empty part after a final newline is not a line; a trailing part
/// with no terminator — a partial final append — is kept as a line, to
/// be reported as malformed by parsing rather than silently lost.
pub open spec fn spec_lines_of(bytes: Seq<u8>) -> Seq<Seq<u8>> {
    let parts = spec_split(bytes, NEWLINE);
    if parts[parts.len() - 1].len() == 0 {
        parts.drop_last()
    } else {
        parts
    }
}

/// Recovery inverts serialization: the byte form of any well-formed
/// metadata log holds back exactly its lines.
pub proof fn lemma_lines_of_meta_bytes(lines: Seq<Seq<u8>>)
    requires
        forall|i: int| 0 <= i < lines.len() ==> line_clean(#[trigger] lines[i]),
    ensures
        spec_lines_of(spec_meta_bytes(lines)) == lines,
    decreases lines.len(),
{
    if lines.len() == 0 {
        assert(spec_meta_bytes(lines) == Seq::<u8>::empty());
        let parts = spec_split(Seq::<u8>::empty(), NEWLINE);
        assert(parts == seq![Seq::<u8>::empty()]);
        assert(parts.drop_last() =~= lines);
    } else {
        lemma_lines_of_meta_bytes(lines.skip(1));
        let head = lines[0];
        let rest_bytes = spec_meta_bytes(lines.skip(1));
        assert(spec_meta_bytes(lines) =~= head + seq![NEWLINE] + rest_bytes);
        assert(line_clean(head));
        lemma_split_concat(head, rest_bytes, NEWLINE);
        let parts = spec_split(spec_meta_bytes(lines), NEWLINE);
        let parts_rest = spec_split(rest_bytes, NEWLINE);
        assert(parts == seq![head] + parts_rest);
        lemma_split_len(rest_bytes, NEWLINE);
        assert(parts[parts.len() - 1] == parts_rest[parts_rest.len() - 1]);
        if parts_rest[parts_rest.len() - 1].len() == 0 {
            assert(spec_lines_of(rest_bytes) == parts_rest.drop_last());
            assert(parts.drop_last() =~~= seq![head] + parts_rest.drop_last());
            assert(seq![head] + lines.skip(1) =~~= lines);
        } else {
            assert(spec_lines_of(rest_bytes) == parts_rest);
            assert(seq![head] + lines.skip(1) =~~= lines);
        }
    }
}

impl MetadataLog {
    /// A metadata log is well formed when no stored line contains a raw
    /// newline, so every line occupies exactly one line of the byte form.
    pub open spec fn wf(self) -> bool {
        forall|i: int| 0 <= i < self@.len() ==> line_clean(#[trigger] self@[i])
    }

    /// Creates an empty log.
    pub fn new() -> (log: MetadataLog)
        ensures
            log.wf(),
            log@.len() == 0,
    {
        MetadataLog { lines: Vec::new() }
    }

    /// How many lines the log holds, well formed or not.
    pub fn count(&self) -> (n: usize)
        ensures
            n == self@.len(),
    {
        self.lines.len()
    }

    /// Serializes and appends one record at the next free ordinal and
    /// returns that ordinal. Nothing already stored moves.
    pub fn append(&mut self, r: &Record) -> (ordinal: usize)
        requires
            old(self).wf(),
            r@.wf(),
            old(self)@.len() < usize::MAX,
        ensures
            final(self).wf(),
            final(self)@ == old(self)@ + seq![spec_encode_line(r@)],
            ordinal == old(self)@.len(),
    {
        let line = encode_line(r);
        proof {
            lemma_encode_line_no_newline(r@);
        }
        self.append_raw_line(line)
    }

    /// Appends one pre-framed line as-is. This is the recovery-side
    /// append: the line need not be the encoding of any record, it must
    /// only fit on one line.
    pub fn append_raw_line(&mut self, line: Vec<u8>) -> (ordinal: usize)
        requires
            old(self).wf(),
            line_clean(line@),
            old(self)@.len() < usize::MAX,
        ensures
            final(self).wf(),
            final(self)@ == old(self)@ + seq![line@],
            ordinal == old(self)@.len(),
    {
        let ordinal = self.lines.len();
        self.lines.push(line);
        proof {
            assert(self@ =~= old(self)@ + seq![line@]);
        }
        ordinal
    }

    /// The raw bytes of the line at an ordinal.
    pub fn line_at(&self, ordinal: usize) -> (line: &Vec<u8>)
        requires
            ordinal < self@.len(),
        ensures
            line@ == self@[ordinal as int],
    {
        &self.lines[ordinal]
    }

    /// Parses the line at an ordinal back into a record. A malformed
    /// line is a local, per-line failure.
    pub fn record_at(&self, ordinal: usize) -> (out: Result<Record, ParseError>)
        requires
            ordinal < self@.len(),
        ensures
            match out {
                Ok(rec) => spec_parse_line(self@[ordinal as int]) == Some(rec@) && rec@.wf(),
                Err(_) => spec_parse_line(self@[ordinal as int]) is None,
            },
    {
        parse_line(&self.lines[ordinal])
    }

    /// Parses every stored line, pairing each ordinal with its outcome.
    /// A malformed line yields a per-line failure instead of failing the
    /// whole read.
    pub fn read_all(&self) -> (out: Vec<(usize, Result<Record, ParseError>)>)
        ensures
            out@.len() == self@.len(),
            forall|i: int|
                0 <= i < out@.len() ==> (#[trigger] out@[i]).0 == i && (match out@[i].1 {
                    Ok(rec) => spec_parse_line(self@[i]) == Some(rec@) && rec@.wf(),
                    Err(_) => spec_parse_line(self@[i]) is None,
                }),
    {
        let n = self.lines.len();
        let mut out: Vec<(usize, Result<Record, ParseError>)> = Vec::new();
        let mut i: usize = 0;
        while i < n
            invariant
                n == self@.len(),
                n == self.lines@.len(),
                i <= n,
                out@.len() == i,
                forall|t: int|
                    0 <= t < out@.len() ==> (#[trigger] out@[t]).0 == t && (match out@[t].1 {
                        Ok(rec) => spec_parse_line(self@[t]) == Some(rec@) && rec@.wf(),
                        Err(_) => spec_parse_line(self@[t]) is None,
                    }),
            decreases n - i,
        {
            let parsed = parse_line(&self.lines[i]);
            out.push((i, parsed));
            i += 1;
        }
        out
    }

    /// Resolves a sparse selection of ordinals against the log, in the
    /// order given. An ordinal that is out of range or whose line is
    /// malformed resolves to nothing rather than failing the lookup.
    pub fn read_by_ordinals(&self, ordinals: &Vec<usize>) -> (out: Vec<Option<Record>>)
        ensures
            out@.len() == ordinals@.len(),
            forall|j: int|
                0 <= j < out@.len() ==> (match #[trigger] out@[j] {
                    Some(rec) => ordinals@[j] < self@.len() && spec_parse_line(
                        self@[ordinals@[j] as int],
                    ) == Some(rec@) && rec@.wf(),
                    None => ordinals@[j] >= self@.len() || spec_parse_line(
                        self@[ordinals@[j] as int],
                    ) is None,
                }),
    {
        let m = ordinals.len();
        let mut out: Vec<Option<Record>> = Vec::new();
        let mut j: usize = 0;
        while j < m
            invariant
                m == ordinals@.len(),
                j <= m,
                out@.len() == j,
                forall|t: int|
                    0 <= t < out@.len() ==> (match #[trigger] out@[t] {
                        Some(rec) => ordinals@[t] < self@.len() && spec_parse_line(
                            self@[ordinals@[t] as int],
                        ) == Some(rec@) && rec@.wf(),
                        None => ordinals@[t] >= self@.len() || spec_parse_line(
                            self@[ordinals@[t] as int],
                        ) is None,
                    }),
            decreases m - j,
        {
            let o = ordinals[j];
            if o < self.lines.len() {
                match parse_line(&self.lines[o]) {
                    Ok(rec) => out.push(Some(rec)),
                    Err(_) => out.push(None),
                }
            } else {
                out.push(None);
            }
            j += 1;
        }
        out
    }

    /// Serializes the whole log into its durable byte form.
    pub fn to_bytes(&self) -> (bytes: Vec<u8>)
        ensures
            bytes@ == spec_meta_bytes(self@),
    {
        let mut bytes: Vec<u8> = Vec::new();
        let n = self.lines.len();
        let mut i: usize = 0;
        proof {
            assert(self@.take(0) =~= Seq::<Seq<u8>>::empty());
        }
        while i < n
            invariant
                n == self.lines@.len(),
                n == self@.len(),
                i <= n,
                bytes@ == spec_meta_bytes(self@.take(i as int)),
            decreases n - i,
        {
            push_all(&mut bytes, &self.lines[i]);
            bytes.push(NEWLINE);
            proof {
                assert(self@.take(i + 1) =~= self@.take(i as int).push(self@[i as int]));
                lemma_meta_bytes_push(self@.take(i as int), self@[i as int]);
            }
            i += 1;
        }
        proof {
            assert(self@.take(n as int) =~= self@);
        }
        bytes
    }

    /// Rebuilds a log from recovered bytes. Every byte is accounted for:
    /// complete lines come back as lines, and a trailing partial line is
    /// kept to surface at parse time rather than silently dropped.
    pub fn from_bytes(bytes: &Vec<u8>) -> (log: MetadataLog)
        ensures
            log.wf(),
            log@ == spec_lines_of(bytes@),
    {
        let mut parts = split_at(bytes, NEWLINE);
        proof {
            lemma_split_len(bytes@, NEWLINE);
            lemma_split_parts_clean(bytes@, NEWLINE);
        }
        let last = parts.len() - 1;
        if parts[last].len() == 0 {
            let ghost before = views_of(parts@);
            let _ = parts.pop();
            proof {
                assert(views_of(parts@) =~~= before.drop_last());
            }
        }
        let log = MetadataLog { lines: parts };
        proof {
            assert forall|i: int| 0 <= i < log@.len() implies line_clean(#[trigger] log@[i]) by {
                assert(log@[i] == spec_split(bytes@, NEWLINE)[i]);
            }
        }
        log
    }
}

} // verus!
