//! The record type held by the metadata log.

use vstd::prelude::*;

verus! {

/// One stored product review. A record is immutable once stored and is
/// identified only by its ordinal position in the logs; it carries no
/// primary key of its own. Text fields are UTF-8 byte sequences; the
/// store itself never interprets them beyond framing.
#[derive(Clone, Debug, PartialEq, Eq)]
pub struct Record {
    pub title: Vec<u8>,
    pub body: Vec<u8>,
    pub product_id: Vec<u8>,
    pub rating: u8,
}

/// The mathematical view of a record: plain byte sequences and the rating.
pub struct RecordModel {
    pub title: Seq<u8>,
    pub body: Seq<u8>,
    pub product_id: Seq<u8>,
    pub rating: u8,
}

impl RecordModel {
    /// A record is well formed when its rating is a star count from 1 to 5.
    pub open spec fn wf(self) -> bool {
        1 <= self.rating <= 5
    }

    /// The canonical text a record's embedding is derived from:
    /// the title, one space, then the body.
    pub open spec fn combined_text(self) -> Seq<u8> {
        self.title + seq![32u8] + self.body
    }
}

/// The mathematical views of a sequence of records.
pub open spec fn models_of(rs: Seq<Record>) -> Seq<RecordModel> {
    rs.map_values(|r: Record| r@)
}

impl View for Record {
    type V = RecordModel;

    open spec fn view(&self) -> RecordModel {
        RecordModel {
            title: self.title@,
            body: self.body@,
            product_id: self.product_id@,
            rating: self.rating,
        }
    }
}

impl Record {
    /// Builds a record, rejecting ratings outside the 1 to 5 star range.
    pub fn new(title: Vec<u8>, body: Vec<u8>, product_id: Vec<u8>, rating: u8) -> (r: Option<
        Record,
    >)
        ensures
            1 <= rating <= 5 ==> r == Some(
                Record { title, body, product_id, rating },
            ),
            !(1 <= rating <= 5) ==> r is None,
    {
        if 1 <= rating && rating <= 5 {
            Some(Record { title, body, product_id, rating })
        } else {
            None
        }
    }

    /// The canonical text this record is embedded from.
    pub fn combined_text(&self) -> (t: Vec<u8>)
        ensures
            t@ == self@.combined_text(),
    {
        let mut t: Vec<u8> = Vec::new();
        push_all(&mut t, &self.title);
        t.push(32u8);
        push_all(&mut t, &self.body);
        proof {
            assert(t@ =~= self@.combined_text());
        }
        t
    }
}

/// Appends every byte of `src` to `dst`, in order.
pub fn push_all(dst: &mut Vec<u8>, src: &Vec<u8>)
    ensures
        final(dst)@ == old(dst)@ + src@,
{
    let n = src.len();
    let mut i: usize = 0;
    while i < n
        invariant
            n == src@.len(),
            i <= n,
            dst@ == old(dst)@ + src@.take(i as int),
        decreases n - i,
    {
        dst.push(src[i]);
        proof {
            assert(old(dst)@ + src@.take(i as int) + seq![src@[i as int]] =~= old(dst)@
                + src@.take(i + 1));
        }
        i += 1;
    }
    proof {
        assert(old(dst)@ + src@.take(n as int) =~= old(dst)@ + src@);
    }
}

} // verus!
