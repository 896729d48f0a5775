//! Streams of self-delimiting records: each says at its ninth byte how long it is.

use vstd::prelude::*;
use vstd::slice::*;
use crate::bytes;
use crate::bytes::read_u32;

verus! {

const LENGTH_OFFSET: usize = 8;

/// Records one after the other.
pub open spec fn joined(records: Seq<Seq<u8>>) -> Seq<u8>
    decreases records.len(),
{
    if records.len() == 0 {
        Seq::empty()
    } else {
        joined(records.drop_last()) + records.last()
    }
}

/// The record has a header of at least `header` bytes and states its own length.
pub open spec fn delimited(record: Seq<u8>, header: int) -> bool {
    12 <= header <= record.len() && bytes::at32(record, 8) == record.len()
}

/// The records of a stream; none where one is torn or misstates its length.
pub open spec fn split(stream: Seq<u8>, header: int) -> Option<Seq<Seq<u8>>>
    decreases stream.len(),
{
    let len = bytes::at32(stream, 8) as int;
    if stream.len() == 0 {
        Some(Seq::empty())
    } else if header < 12 || stream.len() < header || len < header || len > stream.len() {
        None
    } else {
        match split(stream.subrange(len, stream.len() as int), header) {
            Some(rest) => Some(seq![stream.subrange(0, len)] + rest),
            None => None,
        }
    }
}

/// The contents of a list of byte vectors.
pub open spec fn contents(records: Seq<Vec<u8>>) -> Seq<Seq<u8>> {
    Seq::new(records.len(), |i: int| records[i]@)
}

spec fn after(done: Seq<Seq<u8>>, rest: Option<Seq<Seq<u8>>>) -> Option<Seq<Seq<u8>>> {
    match rest {
        Some(r) => Some(done + r),
        None => None,
    }
}

pub proof fn lemma_joined_first(records: Seq<Seq<u8>>)
    requires
        records.len() > 0,
    ensures
        joined(records) == records[0] + joined(records.drop_first()),
    decreases records.len(),
{
    if records.len() == 1 {
        assert(joined(records.drop_last()) =~= Seq::<u8>::empty());
        assert(joined(records.drop_first()) =~= Seq::<u8>::empty());
        assert(joined(records) =~= records[0] + joined(records.drop_first()));
    } else {
        lemma_joined_first(records.drop_last());
        assert(records.drop_last().drop_first() =~= records.drop_first().drop_last());
        assert(joined(records) =~= records[0] + joined(records.drop_first()));
    }
}

/// Records that were joined come apart again.
pub proof fn lemma_split_joined(records: Seq<Seq<u8>>, header: int)
    requires
        forall|i: int| 0 <= i < records.len() ==> delimited(#[trigger] records[i], header),
    ensures
        split(joined(records), header) == Some(records),
    decreases records.len(),
{
    if records.len() == 0 {
        assert(split(joined(records), header)->Some_0 =~= records);
    } else {
        let first = records[0];
        let rest = records.drop_first();
        let stream = joined(records);
        lemma_joined_first(records);
        lemma_split_joined(rest, header);
        assert(stream.subrange(0, first.len() as int) =~= first);
        assert(stream.subrange(first.len() as int, stream.len() as int) =~= joined(rest));
        bytes::lemma_fields_of_window(stream, 0, first.len() as int, 8);
        assert(seq![first] + rest =~= records);
    }
}

/// Records that came apart make up their stream again.
pub proof fn lemma_joined_split(stream: Seq<u8>, header: int)
    ensures
        split(stream, header) matches Some(records) ==> joined(records) == stream,
    decreases stream.len(),
{
    if let Some(records) = split(stream, header) {
        if stream.len() > 0 {
            let len = bytes::at32(stream, 8) as int;
            let rest = stream.subrange(len, stream.len() as int);
            lemma_joined_split(rest, header);
            lemma_joined_first(records);
            assert(records.drop_first() =~= split(rest, header)->Some_0);
            assert(stream.subrange(0, len) + rest =~= stream);
        } else {
            assert(joined(records) =~= stream);
        }
    }
}

/// Takes a stream of records apart.
pub fn split_records(stream: &[u8], header: usize) -> (r: Option<Vec<Vec<u8>>>)
    requires
        header >= 12,
    ensures
        match r {
            Some(records) => split(stream@, header as int) == Some(contents(records@)),
            None => split(stream@, header as int) is None,
        },
{
    let mut done: Vec<Vec<u8>> = Vec::new();
    let mut at: usize = 0;
    assert(stream@.subrange(0, stream@.len() as int) =~= stream@);
    assert(contents(done@) =~= Seq::<Seq<u8>>::empty());
    proof {
        let all = split(stream@, header as int);
        if all is Some {
            assert(contents(done@) + all->Some_0 =~= all->Some_0);
        }
    }
    while at < stream.len()
        invariant
            header >= 12,
            at <= stream@.len(),
            split(stream@, header as int) == after(
                contents(done@),
                split(stream@.subrange(at as int, stream@.len() as int), header as int),
            ),
        decreases stream@.len() - at,
    {
        let ghost rest = stream@.subrange(at as int, stream@.len() as int);
        if stream.len() - at < header {
            return None;
        }
        proof {
            bytes::lemma_fields_of_window(stream@, at as int, stream@.len() as int, 8);
        }
        let len: u32 = read_u32(stream, at + LENGTH_OFFSET);
        if (len as u64) < (header as u64) || len as u64 > (stream.len() - at) as u64 {
            return None;
        }
        let len: usize = len as usize;
        let record: Vec<u8> = slice_to_vec(slice_subrange(stream, at, at + len));
        let ghost before = contents(done@);
        done.push(record);
        proof {
            let tail = stream@.subrange(at + len, stream@.len() as int);
            assert(rest.subrange(0, len as int) =~= record@);
            assert(rest.subrange(len as int, rest.len() as int) =~= tail);
            assert(contents(done@) =~= before.push(record@));
            if split(tail, header as int) is Some {
                let others = split(tail, header as int)->Some_0;
                assert(before + (seq![record@] + others) =~= before.push(record@) + others);
            }
        }
        at += len;
    }
    proof {
        assert(stream@.subrange(at as int, stream@.len() as int) =~= Seq::<u8>::empty());
        assert(contents(done@) + Seq::<Seq<u8>>::empty() =~= contents(done@));
    }
    Some(done)
}

} // verus!
