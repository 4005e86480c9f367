//! A sink that keeps every write as a chunk of its own, in order, for the
//! caller to hand out as they come.
use std::collections::VecDeque;
use vstd::prelude::*;

verus! {

/// The chunks written so far, oldest first.
pub struct StreamingWriter {
    chunks: VecDeque<Vec<u8>>,
}

impl StreamingWriter {
    /// The chunks waiting, oldest first.
    pub closed spec fn queued(&self) -> Seq<Seq<u8>> {
        self.chunks@.map_values(|c: Vec<u8>| c@)
    }

    /// A writer that appends to the chunks already in `chunks`.
    pub fn new(chunks: VecDeque<Vec<u8>>) -> (w: Self)
        ensures
            w.queued() == chunks@.map_values(|c: Vec<u8>| c@),
    {
        Self { chunks }
    }

    /// Queues a copy of `data` as one chunk; the whole of it is written.
    pub fn write(&mut self, data: &[u8]) -> (n: usize)
        ensures
            n == data@.len(),
            final(self).queued() == old(self).queued().push(data@),
    {
        let mut copy: Vec<u8> = Vec::new();
        let mut i: usize = 0;
        while i < data.len()
            invariant
                0 <= i <= data@.len(),
                copy@ == data@.take(i as int),
            decreases data@.len() - i,
        {
            copy.push(data[i]);
            proof {
                assert(copy@ =~= data@.take(i + 1));
            }
            i += 1;
        }
        proof {
            assert(copy@ =~= data@);
        }
        self.chunks.push_back(copy);
        proof {
            assert(self.chunks@.map_values(|c: Vec<u8>| c@) =~= old(self).chunks@.map_values(
                |c: Vec<u8>| c@,
            ).push(data@));
        }
        data.len()
    }

    /// Takes the oldest chunk, if any.
    pub fn pop_front(&mut self) -> (c: Option<Vec<u8>>)
        ensures
            old(self).queued().len() == 0 ==> c is None && final(self).queued() == old(
                self,
            ).queued(),
            old(self).queued().len() > 0 ==> (c matches Some(v) && v@ == old(self).queued()[0]
                && final(self).queued() == old(self).queued().drop_first()),
    {
        let c = self.chunks.pop_front();
        proof {
            assert(self.chunks@.map_values(|c: Vec<u8>| c@) =~= old(self).chunks@.map_values(
                |c: Vec<u8>| c@,
            ).skip(if old(self).chunks@.len() > 0 { 1int } else { 0int }));
        }
        c
    }
}


} // verus!
