//! The metadata log's line encoding.
//!
//! One record is stored per line. A line holds the four fields in a fixed
//! order — title, body, product id, rating — separated by tab bytes, with
//! the rating as a single decimal digit. Field bytes that would collide
//! with the framing are escaped: backslash as `\\`, newline as `\n`, tab
//! as `\t`. The encoding therefore never emits a raw newline or tab inside
//! a field, every record round-trips exactly, and any line that is not the
//! encoding of a record is reported as malformed rather than silently
//! accepted.

use vstd::prelude::*;
use crate::record::{Record, RecordModel};

verus! {

/// Field separator: tab.
pub const SEP: u8 = 9;

/// Line terminator: newline. Never part of an encoded line.
pub const NEWLINE: u8 = 10;

/// Escape lead-in: backslash.
pub const ESCAPE: u8 = 92;

/// Second byte of an escaped newline: the letter n.
pub const ESCAPED_NEWLINE: u8 = 110;

/// Second byte of an escaped tab: the letter t.
pub const ESCAPED_SEP: u8 = 116;

/// A stored line that is not the encoding of any record.
#[derive(Clone, Copy, Debug, PartialEq, Eq)]
pub struct ParseError;

/// The escape expansion of a single field byte.
pub open spec fn spec_escape_byte(b: u8) -> Seq<u8> {
    if b == ESCAPE {
        seq![ESCAPE, ESCAPE]
    } else if b == NEWLINE {
        seq![ESCAPE, ESCAPED_NEWLINE]
    } else if b == SEP {
        seq![ESCAPE, ESCAPED_SEP]
    } else {
        seq![b]
    }
}

/// The escape expansion of a whole field.
pub open spec fn spec_escape(s: Seq<u8>) -> Seq<u8>
    decreases s.len(),
{
    if s.len() == 0 {
        Seq::empty()
    } else {
        spec_escape_byte(s[0]) + spec_escape(s.skip(1))
    }
}

/// The inverse of escaping: recovers the field bytes, or nothing when the
/// input ends inside an escape pair or holds an unknown escape pair.
pub open spec fn spec_unescape(s: Seq<u8>) -> Option<Seq<u8>>
    decreases s.len(),
{
    if s.len() == 0 {
        Some(Seq::empty())
    } else if s[0] == ESCAPE {
        if s.len() < 2 {
            None
        } else if s[1] == ESCAPE || s[1] == ESCAPED_NEWLINE || s[1] == ESCAPED_SEP {
            match spec_unescape(s.skip(2)) {
                Some(t) => Some(seq![spec_unescape_pair(s[1])] + t),
                None => None,
            }
        } else {
            None
        }
    } else {
        match spec_unescape(s.skip(1)) {
            Some(t) => Some(seq![s[0]] + t),
            None => None,
        }
    }
}

/// The field byte an escape pair stands for.
pub open spec fn spec_unescape_pair(c: u8) -> u8 {
    if c == ESCAPE {
        ESCAPE
    } else if c == ESCAPED_NEWLINE {
        NEWLINE
    } else {
        SEP
    }
}

/// Splits a byte sequence at every occurrence of `c`. The result always
/// holds one more part than there are separators; parts never contain `c`.
pub open spec fn spec_split(s: Seq<u8>, c: u8) -> Seq<Seq<u8>>
    decreases s.len(),
{
    if s.len() == 0 {
        seq![Seq::<u8>::empty()]
    } else if s[0] == c {
        seq![Seq::<u8>::empty()] + spec_split(s.skip(1), c)
    } else {
        let r = spec_split(s.skip(1), c);
        r.update(0, seq![s[0]] + r[0])
    }
}

/// The encoded line of a record: the three escaped text fields and the
/// rating digit, separated by tabs.
pub open spec fn spec_encode_line(r: RecordModel) -> Seq<u8>
    recommends
        r.wf(),
{
    spec_escape(r.title) + seq![SEP] + spec_escape(r.body) + seq![SEP] + spec_escape(r.product_id)
        + seq![SEP] + seq![(48 + r.rating) as u8]
}

/// The record a line stands for, or nothing when the line is malformed:
/// wrong number of fields, an invalid escape, or a rating that is not a
/// digit from 1 to 5.
pub open spec fn spec_parse_line(line: Seq<u8>) -> Option<RecordModel> {
    let parts = spec_split(line, SEP);
    if parts.len() == 4 {
        match (spec_unescape(parts[0]), spec_unescape(parts[1]), spec_unescape(parts[2])) {
            (Some(title), Some(body), Some(product_id)) => {
                if parts[3].len() == 1 && 49 <= parts[3][0] <= 53 {
                    Some(
                        RecordModel {
                            title,
                            body,
                            product_id,
                            rating: (parts[3][0] - 48) as u8,
                        },
                    )
                } else {
                    None
                }
            },
            _ => None,
        }
    } else {
        None
    }
}

/// Escaping a field never produces a raw separator or newline, and any
/// backslash it produces begins a valid escape pair.
pub proof fn lemma_escape_clean(s: Seq<u8>)
    ensures
        forall|i: int| 0 <= i < spec_escape(s).len() ==> #[trigger] spec_escape(s)[i] != SEP,
        forall|i: int| 0 <= i < spec_escape(s).len() ==> #[trigger] spec_escape(s)[i] != NEWLINE,
    decreases s.len(),
{
    if s.len() > 0 {
        lemma_escape_clean(s.skip(1));
        let head = spec_escape_byte(s[0]);
        let tail = spec_escape(s.skip(1));
        assert forall|i: int| 0 <= i < spec_escape(s).len() implies #[trigger] spec_escape(s)[i]
            != SEP && spec_escape(s)[i] != NEWLINE by {
            if i < head.len() {
                assert(spec_escape(s)[i] == head[i]);
            } else {
                assert(spec_escape(s)[i] == tail[i - head.len()]);
            }
        }
    }
}

/// Escaping distributes over concatenation.
pub proof fn lemma_escape_concat(s1: Seq<u8>, s2: Seq<u8>)
    ensures
        spec_escape(s1 + s2) == spec_escape(s1) + spec_escape(s2),
    decreases s1.len(),
{
    if s1.len() == 0 {
        assert(s1 + s2 =~= s2);
        assert(spec_escape(s1) + spec_escape(s2) =~= spec_escape(s2));
    } else {
        lemma_escape_concat(s1.skip(1), s2);
        assert((s1 + s2).skip(1) =~= s1.skip(1) + s2);
        assert(spec_escape_byte(s1[0]) + (spec_escape(s1.skip(1)) + spec_escape(s2))
            =~= (spec_escape_byte(s1[0]) + spec_escape(s1.skip(1))) + spec_escape(s2));
    }
}

/// Unescaping inverts escaping.
pub proof fn lemma_unescape_escape(s: Seq<u8>)
    ensures
        spec_unescape(spec_escape(s)) == Some(s),
    decreases s.len(),
{
    if s.len() == 0 {
        assert(spec_escape(s) =~= Seq::<u8>::empty());
    } else {
        lemma_unescape_escape(s.skip(1));
        let b = s[0];
        let e = spec_escape(s);
        assert(e == spec_escape_byte(b) + spec_escape(s.skip(1)));
        if b == ESCAPE || b == NEWLINE || b == SEP {
            assert(e.len() >= 2);
            assert(e[0] == ESCAPE);
            assert(e.skip(2) =~= spec_escape(s.skip(1)));
            assert(spec_unescape_pair(e[1]) == b);
            assert(seq![b] + s.skip(1) =~= s);
        } else {
            assert(e[0] == b);
            assert(e[0] != ESCAPE);
            assert(e.skip(1) =~= spec_escape(s.skip(1)));
            assert(seq![b] + s.skip(1) =~= s);
        }
    }
}

/// Splitting a sequence that holds no separator yields that sequence as
/// its only part.
pub proof fn lemma_split_whole(x: Seq<u8>, c: u8)
    requires
        forall|i: int| 0 <= i < x.len() ==> #[trigger] x[i] != c,
    ensures
        spec_split(x, c) == seq![x],
    decreases x.len(),
{
    if x.len() == 0 {
        assert(seq![Seq::<u8>::empty()] =~~= seq![x]);
    } else {
        lemma_split_whole(x.skip(1), c);
        let r = spec_split(x.skip(1), c);
        assert(r.update(0, seq![x[0]] + x.skip(1)) =~~= seq![seq![x[0]] + x.skip(1)]);
        assert(seq![x[0]] + x.skip(1) =~= x);
        assert(spec_split(x, c) =~~= seq![x]);
    }
}

/// Splitting peels a leading separator-free part off the front.
pub proof fn lemma_split_concat(x: Seq<u8>, rest: Seq<u8>, c: u8)
    requires
        forall|i: int| 0 <= i < x.len() ==> #[trigger] x[i] != c,
    ensures
        spec_split(x + seq![c] + rest, c) == seq![x] + spec_split(rest, c),
    decreases x.len(),
{
    let s = x + seq![c] + rest;
    if x.len() == 0 {
        assert(s[0] == c);
        assert(s.skip(1) =~= rest);
        assert(spec_split(s, c) =~~= seq![Seq::<u8>::empty()] + spec_split(rest, c));
        assert(seq![x] =~~= seq![Seq::<u8>::empty()]);
    } else {
        lemma_split_concat(x.skip(1), rest, c);
        assert(s[0] == x[0]);
        assert(s[0] != c);
        assert(s.skip(1) =~= x.skip(1) + seq![c] + rest);
        let r = spec_split(s.skip(1), c);
        assert(r == seq![x.skip(1)] + spec_split(rest, c));
        assert(r.len() >= 1);
        assert(r[0] == x.skip(1));
        assert(seq![x[0]] + x.skip(1) =~= x);
        assert(r.update(0, seq![x[0]] + r[0]) =~~= seq![x] + spec_split(rest, c));
    }
}

/// No part of a split contains the separator it was split at.
pub proof fn lemma_split_parts_clean(s: Seq<u8>, c: u8)
    ensures
        forall|i: int, j: int|
            0 <= i < spec_split(s, c).len() && 0 <= j < spec_split(s, c)[i].len()
                ==> #[trigger] spec_split(s, c)[i][j] != c,
    decreases s.len(),
{
    if s.len() == 0 {
    } else if s[0] == c {
        lemma_split_parts_clean(s.skip(1), c);
        assert forall|i: int, j: int|
            0 <= i < spec_split(s, c).len() && 0 <= j < spec_split(s, c)[i].len() implies #[trigger] spec_split(
            s,
            c,
        )[i][j] != c by {
            if i > 0 {
                assert(spec_split(s, c)[i] == spec_split(s.skip(1), c)[i - 1]);
            }
        }
    } else {
        lemma_split_parts_clean(s.skip(1), c);
        let r = spec_split(s.skip(1), c);
        lemma_split_len(s.skip(1), c);
        assert forall|i: int, j: int|
            0 <= i < spec_split(s, c).len() && 0 <= j < spec_split(s, c)[i].len() implies #[trigger] spec_split(
            s,
            c,
        )[i][j] != c by {
            if i == 0 {
                assert(spec_split(s, c)[0] == seq![s[0]] + r[0]);
                if j > 0 {
                    assert(spec_split(s, c)[0][j] == r[0][j - 1]);
                }
            } else {
                assert(spec_split(s, c)[i] == r[i]);
            }
        }
    }
}

/// Every split has at least one part.
pub proof fn lemma_split_len(s: Seq<u8>, c: u8)
    ensures
        spec_split(s, c).len() >= 1,
    decreases s.len(),
{
    if s.len() > 0 {
        lemma_split_len(s.skip(1), c);
    }
}

/// Parsing inverts encoding: the encoded line of any well-formed record
/// parses back to exactly that record. Together with `parse_line`'s
/// contract this also makes the encoding injective.
pub proof fn lemma_parse_encode_line(r: RecordModel)
    requires
        r.wf(),
    ensures
        spec_parse_line(spec_encode_line(r)) == Some(r),
{
    let et = spec_escape(r.title);
    let eb = spec_escape(r.body);
    let ep = spec_escape(r.product_id);
    let digit = seq![(48 + r.rating) as u8];
    let line = spec_encode_line(r);
    lemma_escape_clean(r.title);
    lemma_escape_clean(r.body);
    lemma_escape_clean(r.product_id);
    let tail1 = eb + seq![SEP] + ep + seq![SEP] + digit;
    let tail2 = ep + seq![SEP] + digit;
    assert(line =~= et + seq![SEP] + tail1);
    lemma_split_concat(et, tail1, SEP);
    lemma_split_concat(eb, tail2, SEP);
    assert(tail1 =~= eb + seq![SEP] + tail2);
    lemma_split_concat(ep, digit, SEP);
    assert(48 + r.rating <= 53);
    assert(digit[0] != SEP);
    lemma_split_whole(digit, SEP);
    let parts = spec_split(line, SEP);
    assert(parts =~~= seq![et] + (seq![eb] + (seq![ep] + seq![digit])));
    assert(parts.len() == 4);
    assert(parts[0] == et);
    assert(parts[1] == eb);
    assert(parts[2] == ep);
    assert(parts[3] == digit);
    lemma_unescape_escape(r.title);
    lemma_unescape_escape(r.body);
    lemma_unescape_escape(r.product_id);
    assert(49 <= digit[0] <= 53);
    assert((digit[0] - 48) as u8 == r.rating);
}

/// The views of a sequence of byte vectors.
pub open spec fn views_of(parts: Seq<Vec<u8>>) -> Seq<Seq<u8>> {
    parts.map_values(|p: Vec<u8>| p@)
}

/// No encoded line contains a raw newline, so one record always occupies
/// exactly one line of the metadata log.
pub proof fn lemma_encode_line_no_newline(r: RecordModel)
    requires
        r.wf(),
    ensures
        forall|i: int|
            0 <= i < spec_encode_line(r).len() ==> #[trigger] spec_encode_line(r)[i] != NEWLINE,
{
    lemma_escape_clean(r.title);
    lemma_escape_clean(r.body);
    lemma_escape_clean(r.product_id);
    let et = spec_escape(r.title);
    let eb = spec_escape(r.body);
    let ep = spec_escape(r.product_id);
    let line = spec_encode_line(r);
    assert forall|i: int| 0 <= i < line.len() implies #[trigger] line[i] != NEWLINE by {
        let n1 = et.len() as int;
        let n2 = n1 + 1 + eb.len();
        let n3 = n2 + 1 + ep.len();
        if i < n1 {
            assert(line[i] == et[i]);
        } else if i == n1 {
            assert(line[i] == SEP);
        } else if i < n2 {
            assert(line[i] == eb[i - n1 - 1]);
        } else if i == n2 {
            assert(line[i] == SEP);
        } else if i < n3 {
            assert(line[i] == ep[i - n2 - 1]);
        } else if i == n3 {
            assert(line[i] == SEP);
        } else {
            assert(line[i] == (48 + r.rating) as u8);
        }
    }
}

/// Appends the escape expansion of `src` to `dst`.
fn escape_into(dst: &mut Vec<u8>, src: &Vec<u8>)
    ensures
        final(dst)@ == old(dst)@ + spec_escape(src@),
{
    let n = src.len();
    let mut i: usize = 0;
    while i < n
        invariant
            n == src@.len(),
            i <= n,
            dst@ == old(dst)@ + spec_escape(src@.take(i as int)),
        decreases n - i,
    {
        let b = src[i];
        if b == ESCAPE {
            dst.push(ESCAPE);
            dst.push(ESCAPE);
        } else if b == NEWLINE {
            dst.push(ESCAPE);
            dst.push(ESCAPED_NEWLINE);
        } else if b == SEP {
            dst.push(ESCAPE);
            dst.push(ESCAPED_SEP);
        } else {
            dst.push(b);
        }
        proof {
            let one = seq![src@[i as int]];
            assert(src@.take(i + 1) =~= src@.take(i as int) + one);
            lemma_escape_concat(src@.take(i as int), one);
            assert(one.skip(1) =~= Seq::<u8>::empty());
            assert(spec_escape(Seq::<u8>::empty()) == Seq::<u8>::empty());
            assert(spec_escape(one) == spec_escape_byte(one[0]) + spec_escape(one.skip(1)));
            assert(spec_escape(one) =~= spec_escape_byte(src@[i as int]));
            assert(dst@ =~= old(dst)@ + spec_escape(src@.take(i + 1)));
        }
        i += 1;
    }
    proof {
        assert(src@.take(n as int) =~= src@);
    }
}

/// Serializes a record as one metadata log line.
pub fn encode_line(r: &Record) -> (line: Vec<u8>)
    requires
        r@.wf(),
    ensures
        line@ == spec_encode_line(r@),
{
    let mut line: Vec<u8> = Vec::new();
    escape_into(&mut line, &r.title);
    line.push(SEP);
    escape_into(&mut line, &r.body);
    line.push(SEP);
    escape_into(&mut line, &r.product_id);
    line.push(SEP);
    line.push(48 + r.rating);
    proof {
        assert(line@ =~= spec_encode_line(r@));
    }
    line
}

/// Ghost helper: what a split looks like while its first part is still
/// being accumulated.
spec fn prepend_first(pre: Seq<u8>, parts: Seq<Seq<u8>>) -> Seq<Seq<u8>>
    recommends
        parts.len() >= 1,
{
    parts.update(0, pre + parts[0])
}

/// Splits a line at every occurrence of `c`.
pub fn split_at(line: &Vec<u8>, c: u8) -> (parts: Vec<Vec<u8>>)
    ensures
        views_of(parts@) == spec_split(line@, c),
{
    let n = line.len();
    let mut parts: Vec<Vec<u8>> = Vec::new();
    let mut cur: Vec<u8> = Vec::new();
    let mut i: usize = 0;
    proof {
        lemma_split_len(line@, c);
        assert(line@.skip(0) =~= line@);
        assert(views_of(parts@) + prepend_first(cur@, spec_split(line@.skip(0), c))
            =~~= spec_split(line@, c));
    }
    while i < n
        invariant
            n == line@.len(),
            i <= n,
            spec_split(line@, c) == views_of(parts@) + prepend_first(
                cur@,
                spec_split(line@.skip(i as int), c),
            ),
        decreases n - i,
    {
        let b = line[i];
        let ghost rem = line@.skip(i as int);
        proof {
            assert(rem[0] == line@[i as int]);
            assert(rem.skip(1) =~= line@.skip(i + 1));
            lemma_split_len(line@.skip(i + 1), c);
        }
        if b == c {
            let done = cur;
            cur = Vec::new();
            proof {
                assert(spec_split(rem, c) == seq![Seq::<u8>::empty()] + spec_split(
                    line@.skip(i + 1),
                    c,
                ));
                assert(views_of(parts@.push(done)) + prepend_first(
                    cur@,
                    spec_split(line@.skip(i + 1), c),
                ) =~~= views_of(parts@) + prepend_first(done@, spec_split(rem, c)));
            }
            parts.push(done);
        } else {
            let ghost r = spec_split(line@.skip(i + 1), c);
            proof {
                assert(spec_split(rem, c) == r.update(0, seq![b] + r[0]));
                assert(prepend_first(cur@.push(b), r) =~~= prepend_first(cur@, spec_split(rem, c)));
            }
            cur.push(b);
        }
        i += 1;
    }
    proof {
        assert(line@.skip(n as int) =~= Seq::<u8>::empty());
        assert(views_of(parts@.push(cur)) =~~= views_of(parts@) + prepend_first(
            cur@,
            spec_split(line@.skip(n as int), c),
        ));
    }
    parts.push(cur);
    parts
}

/// Ghost helper: prepend already-recovered bytes to an unescape outcome.
spec fn opt_prepend(pre: Seq<u8>, o: Option<Seq<u8>>) -> Option<Seq<u8>> {
    match o {
        Some(t) => Some(pre + t),
        None => None,
    }
}

/// Undoes the field escaping; reports a malformed escape instead of
/// guessing at its meaning.
pub fn unescape(src: &Vec<u8>) -> (out: Result<Vec<u8>, ParseError>)
    ensures
        match out {
            Ok(f) => spec_unescape(src@) == Some(f@),
            Err(_) => spec_unescape(src@) is None,
        },
{
    let n = src.len();
    let mut out: Vec<u8> = Vec::new();
    let mut i: usize = 0;
    proof {
        assert(src@.skip(0) =~= src@);
        if spec_unescape(src@) is Some {
            assert(out@ + spec_unescape(src@)->Some_0 =~= spec_unescape(src@)->Some_0);
        }
    }
    while i < n
        invariant
            n == src@.len(),
            i <= n,
            spec_unescape(src@) == opt_prepend(out@, spec_unescape(src@.skip(i as int))),
        decreases n - i,
    {
        let b = src[i];
        let ghost rem = src@.skip(i as int);
        proof {
            assert(rem[0] == src@[i as int]);
        }
        if b == ESCAPE {
            if i + 1 >= n {
                proof {
                    assert(rem.len() < 2);
                }
                return Err(ParseError);
            }
            let e = src[i + 1];
            if e == ESCAPE || e == ESCAPED_NEWLINE || e == ESCAPED_SEP {
                let u = if e == ESCAPE {
                    ESCAPE
                } else if e == ESCAPED_NEWLINE {
                    NEWLINE
                } else {
                    SEP
                };
                proof {
                    assert(rem[1] == src@[i + 1]);
                    assert(rem.skip(2) =~= src@.skip(i + 2));
                    assert(u == spec_unescape_pair(e));
                    if spec_unescape(src@.skip(i + 2)) is Some {
                        let t = spec_unescape(src@.skip(i + 2))->Some_0;
                        assert(out@ + (seq![u] + t) =~= out@.push(u) + t);
                    }
                }
                out.push(u);
                i += 2;
            } else {
                return Err(ParseError);
            }
        } else {
            proof {
                assert(rem.skip(1) =~= src@.skip(i + 1));
                if spec_unescape(src@.skip(i + 1)) is Some {
                    let t = spec_unescape(src@.skip(i + 1))->Some_0;
                    assert(out@ + (seq![b] + t) =~= out@.push(b) + t);
                }
            }
            out.push(b);
            i += 1;
        }
    }
    proof {
        assert(src@.skip(n as int) =~= Seq::<u8>::empty());
        assert(out@ + Seq::<u8>::empty() =~= out@);
    }
    Ok(out)
}

/// Parses one metadata log line back into a record. Succeeds exactly on
/// the lines that are the encoding of a well-formed record; any other
/// line is malformed.
pub fn parse_line(line: &Vec<u8>) -> (out: Result<Record, ParseError>)
    ensures
        match out {
            Ok(rec) => spec_parse_line(line@) == Some(rec@) && rec@.wf(),
            Err(_) => spec_parse_line(line@) is None,
        },
{
    let parts = split_at(line, SEP);
    if parts.len() != 4 {
        return Err(ParseError);
    }
    let title = match unescape(&parts[0]) {
        Ok(t) => t,
        Err(e) => {
            return Err(e);
        },
    };
    let body = match unescape(&parts[1]) {
        Ok(t) => t,
        Err(e) => {
            return Err(e);
        },
    };
    let product_id = match unescape(&parts[2]) {
        Ok(t) => t,
        Err(e) => {
            return Err(e);
        },
    };
    let last = &parts[3];
    if last.len() != 1 {
        return Err(ParseError);
    }
    let d = last[0];
    if d < 49 || d > 53 {
        return Err(ParseError);
    }
    let rec = Record { title, body, product_id, rating: d - 48 };
    proof {
        assert(spec_parse_line(line@) == Some(rec@));
    }
    Ok(rec)
}

} // verus!
