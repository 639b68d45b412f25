//! The pull interface a scanning operation reads from, and an in-memory
//! implementation of it that delivers a fixed script of chunks.

use vstd::prelude::*;
use crate::SourceError;

verus! {

/// Concatenation of the chunk views from index `i` on.
pub open spec fn bytes_from(cs: Seq<Seq<u8>>, i: int) -> Seq<u8>
    decreases cs.len() - i,
    when 0 <= i <= cs.len()
{
    if i == cs.len() {
        Seq::empty()
    } else {
        cs[i] + bytes_from(cs, i + 1)
    }
}

/// An incremental byte source: `fill` presents the current view without
/// consuming it, `consume` commits bytes of the most recent view as read.
///
/// `remaining()` models every byte the source will still deliver before its
/// terminal condition; `view_len()` models the length of the view most
/// recently presented (0 when no view is outstanding). `fill` is idempotent
/// while a non-empty view is outstanding, and reports the terminal condition
/// as an error only once nothing further is owed.
pub trait ByteSource: Sized {
    spec fn remaining(&self) -> Seq<u8>;

    spec fn view_len(&self) -> nat;

    /// Termination measure: an upper bound on how many more times `fill` may
    /// present an empty view. A `fill` that returns an empty view strictly
    /// decreases it, so a loop that pulls until data or the terminal
    /// condition arrives can be shown to terminate.
    spec fn budget(&self) -> nat;

    fn fill(&mut self) -> (r: Result<Vec<u8>, SourceError>)
        ensures
            final(self).remaining() == old(self).remaining(),
            final(self).budget() <= old(self).budget(),
            match r {
                Ok(v) => {
                    &&& v@.len() <= old(self).remaining().len()
                    &&& v@ == old(self).remaining().take(v@.len() as int)
                    &&& final(self).view_len() == v@.len()
                    &&& old(self).view_len() > 0 ==> v@.len() == old(self).view_len()
                    &&& v@.len() == 0 ==> final(self).budget() < old(self).budget()
                },
                Err(_) => {
                    &&& old(self).remaining().len() == 0
                    &&& final(self).view_len() == 0
                },
            },
    ;

    fn consume(&mut self, n: usize)
        requires
            n as nat <= old(self).view_len(),
        ensures
            final(self).remaining() == old(self).remaining().skip(n as int),
            final(self).view_len() == old(self).view_len() - n as nat,
            final(self).budget() <= old(self).budget(),
    ;
}

/// A source that replays a fixed sequence of chunks, one `fill` view per
/// chunk, then reports end of input. Mirrors how a real chunked source
/// parcels out data, so buffering behaviour can be exercised deterministically.
pub struct ChunkSource {
    chunks: Vec<Vec<u8>>,
    index: usize,
    pos: usize,
}

impl ChunkSource {
    pub closed spec fn chunk_views(&self) -> Seq<Seq<u8>> {
        self.chunks@.map_values(|c: Vec<u8>| c@)
    }

    pub fn new(chunks: Vec<Vec<u8>>) -> (r: ChunkSource)
        ensures
            r.remaining() == bytes_from(chunks@.map_values(|c: Vec<u8>| c@), 0),
            r.view_len() == (if chunks@.len() > 0 {
                chunks@[0]@.len()
            } else {
                0
            }),
            r.budget() == chunks@.len(),
    {
        let r = ChunkSource { chunks, index: 0, pos: 0 };
        proof {
            let cs = r.chunk_views();
            if cs.len() > 0 {
                assert(cs[0].skip(0) + bytes_from(cs, 1) =~= bytes_from(cs, 0));
            }
        }
        r
    }
}

impl ByteSource for ChunkSource {
    closed spec fn remaining(&self) -> Seq<u8> {
        let cs = self.chunk_views();
        if self.index < cs.len() && self.pos <= cs[self.index as int].len() {
            cs[self.index as int].skip(self.pos as int) + bytes_from(cs, self.index + 1)
        } else if self.index < cs.len() {
            bytes_from(cs, self.index + 1)
        } else {
            Seq::empty()
        }
    }

    closed spec fn view_len(&self) -> nat {
        let cs = self.chunk_views();
        if self.index < cs.len() && self.pos <= cs[self.index as int].len() {
            (cs[self.index as int].len() - self.pos) as nat
        } else {
            0
        }
    }

    closed spec fn budget(&self) -> nat {
        if self.index < self.chunks@.len() {
            (self.chunks@.len() - self.index) as nat
        } else {
            0
        }
    }

    fn fill(&mut self) -> (r: Result<Vec<u8>, SourceError>) {
        let ghost pre = *self;
        if self.index < self.chunks.len() && self.pos >= self.chunks[self.index].len() {
            self.index = self.index + 1;
            self.pos = 0;
            proof {
                let cs = self.chunk_views();
                if pre.pos <= cs[pre.index as int].len() {
                    assert(pre.remaining() =~= cs[pre.index as int].skip(
                        cs[pre.index as int].len() as int) + bytes_from(cs, pre.index + 1));
                }
                if self.index < cs.len() {
                    assert(cs[self.index as int].skip(0) + bytes_from(cs, self.index + 1)
                        =~= bytes_from(cs, self.index as int));
                }
                assert(self.remaining() =~= pre.remaining());
            }
        }
        if self.index < self.chunks.len() {
            let chunk_len = self.chunks[self.index].len();
            let ghost c = self.chunks@[self.index as int]@;
            let mut v: Vec<u8> = Vec::new();
            let mut i = if self.pos < chunk_len { self.pos } else { chunk_len };
            let ghost start = i as int;
            while i < chunk_len
                invariant
                    self.index < self.chunks.len(),
                    c == self.chunks@[self.index as int]@,
                    chunk_len == c.len(),
                    start <= i <= chunk_len,
                    v@.len() == i - start,
                    forall|j: int| 0 <= j < v@.len() ==> v@[j] == c[start + j],
                decreases chunk_len - i,
            {
                let b = self.chunks[self.index][i];
                v.push(b);
                i = i + 1;
            }
            proof {
                let cs = self.chunk_views();
                assert(cs[self.index as int] == c);
                if self.pos <= c.len() {
                    assert(v@ =~= c.skip(self.pos as int));
                    assert(v@ =~= self.remaining().take(v@.len() as int));
                } else {
                    assert(v@ =~= Seq::<u8>::empty());
                    assert(v@ =~= self.remaining().take(0));
                }
            }
            Ok(v)
        } else {
            Err(SourceError::EndOfInput)
        }
    }

    fn consume(&mut self, n: usize) {
        let ghost pre = *self;
        if n > 0 {
            let chunk_len = self.chunks[self.index].len();
            self.pos = self.pos + n;
            proof {
                let cs = self.chunk_views();
                let c = cs[self.index as int];
                assert(pre.remaining().skip(n as int)
                    =~= c.skip(self.pos as int) + bytes_from(cs, self.index + 1));
            }
        } else {
            proof {
                assert(pre.remaining().skip(0) =~= pre.remaining());
            }
        }
    }
}

} // verus!
