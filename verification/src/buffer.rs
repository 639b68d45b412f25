//! A lookahead buffer that turns an arbitrarily chunked byte source into
//! on-demand minimum-length views, copying only when a single chunk is not
//! enough, and replaying a recorded terminal condition only after every byte
//! captured before it has been delivered.

use vstd::prelude::*;
use crate::SourceError;
use crate::source::ByteSource;
use crate::text::run_of;
use crate::text::lemma_run_of_bounds;

verus! {

/// Wraps one [`ByteSource`]. `fill_request(n)` presents at least `n` bytes
/// when the source can still supply them; `consume(n)` commits `n` bytes of
/// the most recent view as read.
pub struct LookaheadBuffer<S: ByteSource> {
    src: S,
    saved: Vec<u8>,
    savedpos: usize,
    savederr: Option<SourceError>,
}

impl<S: ByteSource> LookaheadBuffer<S> {
    /// The bytes copied into the accumulation buffer and not yet consumed.
    pub closed spec fn buffered(&self) -> Seq<u8> {
        if self.savedpos <= self.saved@.len() {
            self.saved@.skip(self.savedpos as int)
        } else {
            Seq::empty()
        }
    }

    /// Whether a terminal condition has been recorded and not yet surfaced.
    pub closed spec fn err_pending(&self) -> bool {
        self.savederr is Some
    }

    /// The recorded terminal condition, if any.
    pub closed spec fn pending(&self) -> Option<SourceError> {
        self.savederr
    }

    /// Every byte this buffer can still deliver, in order: buffered bytes
    /// first, then whatever the source still owes (nothing once a terminal
    /// condition has been recorded).
    pub closed spec fn available(&self) -> Seq<u8> {
        self.buffered() + if self.savederr is Some {
            Seq::<u8>::empty()
        } else {
            self.src.remaining()
        }
    }

    /// Length of the most recently presented view: the upper bound on what
    /// `consume` may commit right now.
    pub closed spec fn view_len(&self) -> nat {
        if self.buffered().len() > 0 {
            self.buffered().len()
        } else if self.savederr is Some {
            0
        } else {
            self.src.view_len()
        }
    }

    /// The wrapped source's termination measure, passed through so a
    /// buffer can itself stand where a source is expected.
    pub closed spec fn budget(&self) -> nat {
        self.src.budget()
    }

    /// Structural well-formedness: the read cursor stays inside the
    /// accumulation buffer, and once bytes are buffered or an error is
    /// recorded the source has no outstanding view of its own.
    pub closed spec fn wf(&self) -> bool {
        &&& self.savedpos <= self.saved@.len()
        &&& (self.savederr is Some ==> self.src.remaining().len() == 0 && self.src.view_len()
            == 0)
        &&& (self.savedpos < self.saved@.len() ==> self.src.view_len() == 0)
    }
}

/// What holds after `fill_request(amt)` returns a view `v`.
pub open spec fn fill_ok_post<S: ByteSource>(
    pre: LookaheadBuffer<S>,
    post: LookaheadBuffer<S>,
    amt: nat,
    v: Seq<u8>,
) -> bool {
    &&& post.wf()
    &&& post.available() == pre.available()
    &&& v.len() <= pre.available().len()
    &&& v == pre.available().take(v.len() as int)
    &&& v.len() >= amt || v.len() == pre.available().len()
    &&& post.view_len() == v.len()
    &&& (pre.view_len() > 0 && amt <= pre.view_len()) ==> v.len() == pre.view_len()
    &&& v.len() < amt ==> post.err_pending()
    &&& pre.err_pending() ==> post.pending() == pre.pending()
    &&& post.budget() <= pre.budget()
    &&& v.len() == 0 ==> post.budget() < pre.budget()
}

/// What holds after `fill_request` surfaces a terminal condition.
pub open spec fn fill_err_post<S: ByteSource>(
    pre: LookaheadBuffer<S>,
    post: LookaheadBuffer<S>,
    e: SourceError,
) -> bool {
    &&& post.wf()
    &&& pre.available().len() == 0
    &&& post.available().len() == 0
    &&& post.view_len() == 0
    &&& !post.err_pending()
    &&& (pre.err_pending() ==> pre.pending() == Some(e))
    &&& post.budget() <= pre.budget()
}

/// What holds after `consume(n)`.
pub open spec fn consume_post<S: ByteSource>(
    pre: LookaheadBuffer<S>,
    post: LookaheadBuffer<S>,
    n: nat,
) -> bool {
    &&& post.wf()
    &&& post.available() == pre.available().skip(n as int)
    &&& post.view_len() == pre.view_len() - n
    &&& post.pending() == pre.pending()
    &&& post.budget() <= pre.budget()
}

impl<S: ByteSource> LookaheadBuffer<S> {
    pub fn new(src: S) -> (r: LookaheadBuffer<S>)
        ensures
            r.wf(),
            r.available() == src.remaining(),
            r.view_len() == src.view_len(),
            r.budget() == src.budget(),
            !r.err_pending(),
    {
        let r = LookaheadBuffer { src, saved: Vec::new(), savedpos: 0, savederr: None };
        proof {
            assert(r.buffered() =~= Seq::<u8>::empty());
            assert(r.available() =~= r.src.remaining());
        }
        r
    }

    /// Presents a view of at least `amt` bytes when the source can still
    /// supply them. A shorter view means the source is exhausted; the
    /// recorded terminal condition is surfaced once all bytes captured
    /// before it have been consumed.
    pub fn fill_request(&mut self, amt: usize) -> (r: Result<Vec<u8>, SourceError>)
        requires
            old(self).wf(),
        ensures
            match r {
                Ok(v) => fill_ok_post(*old(self), *final(self), amt as nat, v@),
                Err(e) => fill_err_post(*old(self), *final(self), e),
            },
            old(self).available().len() == 0 && (old(self).err_pending() || old(self).budget()
                == 0) ==> r is Err,
    {
        let ghost pre = *old(self);
        if self.savedpos == self.saved.len() {
            proof {
                assert(pre.buffered() =~= Seq::<u8>::empty());
            }
            match self.savederr {
                Some(e) => {
                    self.savederr = None;
                    proof {
                        assert(pre.available() =~= Seq::<u8>::empty());
                        assert(self.available() =~= Seq::<u8>::empty());
                    }
                    return Err(e);
                },
                None => {},
            }
            let chunk = match self.src.fill() {
                Ok(c) => c,
                Err(e) => {
                    proof {
                        assert(pre.available() =~= Seq::<u8>::empty());
                        assert(self.available() =~= Seq::<u8>::empty());
                    }
                    return Err(e);
                },
            };
            if chunk.len() >= amt {
                // Fast path: the source's own view already satisfies the
                // request; present it directly with no copy. A second fill
                // lets a source that just crossed a chunk boundary present
                // the fresh chunk.
                let v = match self.src.fill() {
                    Ok(c2) => c2,
                    Err(e) => {
                        proof {
                            assert(pre.available() =~= Seq::<u8>::empty());
                            assert(self.available() =~= Seq::<u8>::empty());
                        }
                        return Err(e);
                    },
                };
                proof {
                    assert(self.buffered() =~= Seq::<u8>::empty());
                    assert(pre.available() =~= pre.src.remaining());
                    assert(self.available() =~= self.src.remaining());
                    assert(v@ =~= pre.available().take(v@.len() as int));
                }
                return Ok(v);
            }
            let clen = chunk.len();
            self.saved = chunk;
            self.savedpos = 0;
            self.src.consume(clen);
            proof {
                assert(pre.available() =~= pre.src.remaining());
                assert(self.buffered() =~= pre.src.remaining().take(clen as int));
                assert(self.available() =~= pre.available());
            }
        }
        // Slow path: keep pulling and appending chunks, consuming each as it
        // is absorbed, until the accumulation satisfies the request or the
        // source signals its terminal condition.
        proof {
            if pre.available().len() == 0 {
                assert(pre.budget() > 0);
            }
        }
        let ghost avail0 = self.available();
        let ghost hyp = pre.view_len() > 0 && amt as nat <= pre.view_len();
        proof {
            assert(avail0 =~= pre.available());
            if hyp && self.buffered().len() < amt {
                // A request within the source's outstanding view is met on
                // the fast path, and a non-empty buffered run is itself the
                // outstanding view; either way the loop below cannot start.
                assert(false);
            }
        }
        while (self.saved.len() - self.savedpos < amt) && self.savederr.is_none()
            invariant
                self.wf(),
                self.available() == avail0,
                avail0 == pre.available(),
                hyp == (pre.view_len() > 0 && amt as nat <= pre.view_len()),
                hyp ==> self.buffered() == pre.buffered() && pre.buffered().len()
                    == pre.view_len(),
                pre.err_pending() ==> self.pending() == pre.pending(),
                self.budget() <= pre.budget(),
                self.buffered().len() == 0 ==> self.budget() < pre.budget(),
                !(pre.available().len() == 0 && (pre.err_pending() || pre.budget() == 0)),
            decreases
                    self.src.remaining().len(),
                    self.src.budget(),
                    (if self.savederr is None {
                        1int
                    } else {
                        0int
                    }),
        {
            proof {
                if hyp {
                    assert(false);
                }
            }
            let ghost before = *self;
            match self.src.fill() {
                Ok(chunk) => {
                    let mut chunk = chunk;
                    let clen = chunk.len();
                    self.saved.append(&mut chunk);
                    self.src.consume(clen);
                    proof {
                        assert(self.buffered() =~= before.buffered()
                            + before.src.remaining().take(clen as int));
                        assert(self.available() =~= before.available());
                    }
                },
                Err(e) => {
                    self.savederr = Some(e);
                    proof {
                        assert(self.available() =~= before.available());
                    }
                },
            }
        }
        // Deliver everything buffered in front of the cursor.
        let ghost cur = *self;
        let saved_len = self.saved.len();
        let mut v: Vec<u8> = Vec::new();
        let mut i = self.savedpos;
        while i < saved_len
            invariant
                *self == cur,
                cur.savedpos <= i <= saved_len,
                saved_len == self.saved@.len(),
                v@.len() == i - cur.savedpos,
                forall|j: int| 0 <= j < v@.len() ==> v@[j] == self.saved@[cur.savedpos + j],
            decreases saved_len - i,
        {
            let b = self.saved[i];
            v.push(b);
            i = i + 1;
        }
        proof {
            assert(v@ =~= self.buffered());
            assert(v@ =~= self.available().take(v@.len() as int));
            if v@.len() < amt {
                // The loop stopped short of the request, so the terminal
                // condition is recorded and nothing follows the buffer.
                assert(v@.len() == pre.available().len());
            }
            if self.buffered().len() > 0 {
                assert(self.view_len() == v@.len());
            } else {
                assert(self.view_len() == v@.len());
            }
        }
        Ok(v)
    }

    /// Commits `n` bytes of the most recent view as read.
    pub fn consume(&mut self, n: usize)
        requires
            old(self).wf(),
            n as nat <= old(self).view_len(),
        ensures
            consume_post(*old(self), *final(self), n as nat),
    {
        let ghost pre = *old(self);
        if self.savedpos == self.saved.len() {
            proof {
                assert(pre.buffered() =~= Seq::<u8>::empty());
            }
            self.src.consume(n);
            proof {
                assert(self.buffered() =~= Seq::<u8>::empty());
                if pre.savederr is Some {
                    assert(n == 0);
                    assert(self.available() =~= pre.available().skip(0));
                } else {
                    assert(self.available() =~= pre.available().skip(n as int));
                }
            }
        } else {
            self.savedpos = self.savedpos + n;
            proof {
                assert(self.buffered() =~= pre.buffered().skip(n as int));
                assert(self.available() =~= pre.available().skip(n as int));
            }
        }
    }

    /// The generic fill half of the source contract, re-exposed so the
    /// buffer itself can stand where a source is expected: a view of
    /// whatever is next, with no minimum length.
    pub fn fill(&mut self) -> (r: Result<Vec<u8>, SourceError>)
        requires
            old(self).wf(),
        ensures
            match r {
                Ok(v) => fill_ok_post(*old(self), *final(self), 0, v@),
                Err(e) => fill_err_post(*old(self), *final(self), e),
            },
    {
        self.fill_request(0)
    }

    /// Copies up to `limit` of the next available bytes out and consumes
    /// them: the convenience read built from `fill_request(0)` + `consume`.
    pub fn read(&mut self, limit: usize) -> (r: Result<Vec<u8>, SourceError>)
        requires
            old(self).wf(),
        ensures
            match r {
                Ok(v) => {
                    &&& final(self).wf()
                    &&& v@.len() <= limit
                    &&& old(self).view_len() > 0 ==> v@.len() as int == vstd::math::min(
                        limit as int,
                        old(self).view_len() as int,
                    )
                    &&& v@ == old(self).available().take(v@.len() as int)
                    &&& final(self).available() == old(self).available().skip(v@.len() as int)
                },
                Err(e) => fill_err_post(*old(self), *final(self), e),
            },
    {
        let ghost pre = *old(self);
        let filled = match self.fill_request(0) {
            Ok(v) => v,
            Err(e) => {
                return Err(e);
            },
        };
        let n = if filled.len() < limit {
            filled.len()
        } else {
            limit
        };
        let mut v: Vec<u8> = Vec::new();
        let mut i: usize = 0;
        while i < n
            invariant
                i <= n,
                n <= filled.len(),
                v@ == filled@.take(i as int),
            decreases n - i,
        {
            let b = filled[i];
            v.push(b);
            proof {
                assert(v@ =~= filled@.take(i + 1));
            }
            i = i + 1;
        }
        self.consume(n);
        proof {
            assert(v@ =~= pre.available().take(n as int));
        }
        Ok(v)
    }

    /// Counts and consumes leading bytes satisfying the predicate, stopping
    /// at the first byte that does not or at source exhaustion. `p` is the
    /// specification-level meaning of the predicate.
    pub fn read_pad_byte_if<F: Fn(u8) -> bool>(
        &mut self,
        is_pad: F,
        Ghost(p): Ghost<spec_fn(u8) -> bool>,
    ) -> (r: Result<usize, SourceError>)
        requires
            old(self).wf(),
            old(self).available().len() <= usize::MAX,
            forall|b: u8| #[trigger] is_pad.requires((b,)),
            forall|b: u8, v: bool| is_pad.ensures((b,), v) ==> v == p(b),
        ensures
            match r {
                Ok(count) => {
                    &&& count as int == run_of(old(self).available(), p)
                    &&& final(self).wf()
                    &&& final(self).available() == old(self).available().skip(count as int)
                },
                Err(e) => {
                    &&& final(self).wf()
                    &&& run_of(old(self).available(), p) == old(self).available().len()
                    &&& final(self).available().len() == 0
                    &&& !final(self).err_pending()
                },
            },
    {
        let ghost pre = *old(self);
        let ghost k = run_of(pre.available(), p);
        proof {
            lemma_run_of_bounds(pre.available(), p);
        }
        let mut count: usize = 0;
        loop
            invariant
                pre == *old(self),
                self.wf(),
                forall|b: u8| #[trigger] is_pad.requires((b,)),
                forall|b: u8, v: bool| is_pad.ensures((b,), v) ==> v == p(b),
                k == run_of(pre.available(), p),
                0 <= k <= pre.available().len() <= usize::MAX,
                count <= k,
                self.available() == pre.available().skip(count as int),
                k == count + run_of(self.available(), p),
            decreases pre.available().len() - count,
        {
            let ghost cur = *self;
            let v = match self.fill_request(1) {
                Ok(v) => v,
                Err(e) => {
                    proof {
                        assert(run_of(cur.available(), p) == 0);
                    }
                    return Err(e);
                },
            };
            if v.len() == 0 {
                proof {
                    assert(cur.available().len() == 0);
                    assert(run_of(cur.available(), p) == 0);
                }
                return Ok(count);
            }
            let b = v[0];
            proof {
                assert(b == cur.available()[0]);
            }
            if is_pad(b) {
                self.consume(1);
                proof {
                    assert(p(b));
                    assert(self.available() =~= pre.available().skip(count + 1));
                    assert(cur.available().drop_first() =~= cur.available().skip(1));
                    assert(run_of(cur.available(), p) == 1 + run_of(self.available(), p));
                    lemma_run_of_bounds(self.available(), p);
                }
                count = count + 1;
            } else {
                proof {
                    assert(!p(b));
                    assert(run_of(cur.available(), p) == 0);
                }
                return Ok(count);
            }
        }
    }

    /// Counts and consumes consecutive full encodings of the pad codepoint,
    /// stopping at the first mismatch or at source exhaustion. Single-byte
    /// codepoints take a direct byte-equality fast path.
    #[verifier::loop_isolation(false)]
    pub fn read_pad_char(&mut self, pad: char) -> (r: Result<usize, SourceError>)
        requires
            old(self).wf(),
            old(self).available().len() <= usize::MAX,
        ensures
            ({
                let e = vstd::utf8::encode_scalar(pad as u32);
                let k = pad_run_count(old(self).available(), e);
                match r {
                    Ok(count) => {
                        &&& count as int == k
                        &&& final(self).wf()
                        &&& final(self).available() == old(self).available().skip(k * e.len())
                    },
                    Err(err) => {
                        &&& final(self).wf()
                        &&& k * e.len() == old(self).available().len()
                        &&& final(self).available().len() == 0
                        &&& !final(self).err_pending()
                    },
                }
            }),
    {
        let ghost pre = *old(self);
        let ghost e = vstd::utf8::encode_scalar(pad as u32);
        let ghost k = pad_run_count(pre.available(), e);
        let enc = crate::text::encode_char_bytes(pad);
        proof {
            lemma_pad_run_count_bounds(pre.available(), e);
        }
        if enc.len() == 1 {
            let pb = enc[0];
            let ghost pspec = |b: u8| b == e[0];
            let cl = (|b: u8| -> (rb: bool)
                ensures
                    rb == (b == pb),
                { b == pb });
            let r = self.read_pad_byte_if(cl, Ghost(pspec));
            proof {
                lemma_pad_run_single(pre.available(), e, pspec);
            }
            match r {
                Ok(count) => {
                    proof {
                        assert(pre.available().skip(count as int) =~= pre.available().skip(
                            (count as int) * e.len()));
                    }
                    Ok(count)
                },
                Err(err) => {
                    proof {
                        assert(e.len() == 1);
                        assert(run_of(pre.available(), pspec) == pre.available().len());
                        assert(k == pre.available().len());
                        assert(k * e.len() == k) by (nonlinear_arith)
                            requires
                                e.len() == 1,
                        ;
                    }
                    Err(err)
                },
            }
        } else {
            let elen = enc.len();
            let mut count: usize = 0;
            loop
                invariant
                    pre == *old(self),
                    self.wf(),
                    enc@ == e,
                    2 <= elen == e.len() <= 4,
                    k == pad_run_count(pre.available(), e),
                    0 <= k,
                    k * e.len() <= pre.available().len() <= usize::MAX,
                    count <= k,
                    self.available() == pre.available().skip(count * e.len()),
                    k == count + pad_run_count(self.available(), e),
                decreases pre.available().len() - count * e.len(),
            {
                let ghost cur = *self;
                proof {
                    lemma_pad_run_count_bounds(cur.available(), e);
                    if count < k {
                        assert(pad_run_count(cur.available(), e) >= 1);
                        assert((count + 1) * e.len() <= pre.available().len()) by (nonlinear_arith)
                            requires
                                count + 1 <= k,
                                0 < e.len(),
                                k * e.len() <= pre.available().len(),
                        ;
                    }
                }
                let v = match self.fill_request(elen) {
                    Ok(v) => v,
                    Err(err) => {
                        proof {
                            assert(pad_run_count(cur.available(), e) == 0);
                            assert(count == k);
                            assert(pre.available().skip(count * e.len()).len() == 0);
                        }
                        return Err(err);
                    },
                };
                if v.len() < elen {
                    // The source is exhausted: what is left is shorter than
                    // one encoding of the pad, so it cannot match it.
                    proof {
                        assert(v@.len() == cur.available().len());
                        assert(pad_run_count(cur.available(), e) == 0);
                    }
                    return Ok(count);
                }
                let matches_pad = vec_prefix_eq(&v, &enc, elen);
                if matches_pad {
                    proof {
                        assert(v@.take(elen as int) =~= cur.available().take(e.len() as int));
                        assert(enc@.take(elen as int) =~= e);
                        assert(pad_run_count(cur.available(), e) == 1 + pad_run_count(
                            cur.available().skip(e.len() as int), e));
                        lemma_pad_run_count_bounds(cur.available().skip(e.len() as int), e);
                    }
                    proof {
                        assert(count < k);
                        assert(k <= k * e.len()) by (nonlinear_arith)
                            requires
                                0 <= k,
                                1 <= e.len(),
                        ;
                    }
                    self.consume(elen);
                    count = count + 1;
                    proof {
                        assert((count as int) * e.len() == (count - 1) * e.len() + e.len())
                            by (nonlinear_arith);
                        assert(self.available() =~= pre.available().skip(count * e.len()));
                    }
                } else {
                    proof {
                        assert(v@.take(elen as int) =~= cur.available().take(e.len() as int));
                        assert(enc@.take(elen as int) =~= e);
                        assert(pad_run_count(cur.available(), e) == 0);
                    }
                    return Ok(count);
                }
            }
        }
    }

    /// Non-consuming lookahead of one byte; `None` when the source is
    /// exhausted.
    pub fn peek_byte(&mut self) -> (r: Result<Option<u8>, SourceError>)
        requires
            old(self).wf(),
        ensures
            match r {
                Ok(o) => {
                    &&& final(self).wf()
                    &&& final(self).available() == old(self).available()
                    &&& o == (if old(self).available().len() > 0 {
                        Some(old(self).available()[0])
                    } else {
                        None::<u8>
                    })
                    &&& o is None ==> final(self).err_pending()
                },
                Err(e) => fill_err_post(*old(self), *final(self), e),
            },
            old(self).available().len() == 0 && (old(self).err_pending() || old(self).budget()
                == 0) ==> r is Err,
    {
        let v = match self.fill_request(1) {
            Ok(v) => v,
            Err(e) => {
                return Err(e);
            },
        };
        if v.len() == 0 {
            Ok(None)
        } else {
            Ok(Some(v[0]))
        }
    }

    /// Non-consuming lookahead of one decoded codepoint. The encoded width
    /// is derived from the lead byte; when that width cannot be fully
    /// supplied or the front is not a well-formed encoding, the result is
    /// "no character" rather than a corrupt decode.
    pub fn peek_char(&mut self) -> (r: Result<Option<char>, SourceError>)
        requires
            old(self).wf(),
        ensures
            match r {
                Ok(o) => {
                    &&& final(self).wf()
                    &&& final(self).available() == old(self).available()
                    &&& o == crate::text::decode_front(old(self).available())
                    &&& old(self).available().len() == 0 ==> final(self).err_pending()
                },
                Err(e) => fill_err_post(*old(self), *final(self), e),
            },
            old(self).available().len() == 0 && (old(self).err_pending() || old(self).budget()
                == 0) ==> r is Err,
    {
        let ghost pre = *old(self);
        let v = match self.fill_request(1) {
            Ok(v) => v,
            Err(e) => {
                return Err(e);
            },
        };
        if v.len() == 0 {
            proof {
                assert(!vstd::utf8::valid_first_scalar(pre.available()));
            }
            return Ok(None);
        }
        let w = crate::text::utf8_lead_width(v[0]);
        proof {
            assert(v@[0] == pre.available()[0]);
        }
        if w == 0 {
            proof {
                assert(!vstd::utf8::valid_first_scalar(pre.available()));
            }
            return Ok(None);
        }
        let v2 = match self.fill_request(w) {
            Ok(v2) => v2,
            Err(e) => {
                return Err(e);
            },
        };
        if v2.len() < w {
            proof {
                assert(v2@.len() == pre.available().len());
                assert(!vstd::utf8::valid_first_scalar(pre.available()));
            }
            return Ok(None);
        }
        let c = crate::text::decode_front_vec(&v2);
        proof {
            crate::text::lemma_decode_front_prefix(pre.available(), v2@.len() as int);
        }
        Ok(c)
    }
}

/// Counts how many whole copies of the encoding `e` stand consecutively at
/// the front of `s`.
pub open spec fn pad_run_count(s: Seq<u8>, e: Seq<u8>) -> int
    decreases s.len(),
    when e.len() >= 1
{
    if s.len() >= e.len() && s.take(e.len() as int) == e {
        1 + pad_run_count(s.skip(e.len() as int), e)
    } else {
        0
    }
}

pub proof fn lemma_pad_run_count_bounds(s: Seq<u8>, e: Seq<u8>)
    requires
        e.len() >= 1,
    ensures
        0 <= pad_run_count(s, e),
        pad_run_count(s, e) * e.len() <= s.len(),
    decreases s.len(),
{
    if s.len() >= e.len() && s.take(e.len() as int) == e {
        lemma_pad_run_count_bounds(s.skip(e.len() as int), e);
        assert((1 + pad_run_count(s.skip(e.len() as int), e)) * e.len() == e.len()
            + pad_run_count(s.skip(e.len() as int), e) * e.len()) by (nonlinear_arith);
    }
}

/// For a one-byte encoding, the encoding run is the byte run.
pub proof fn lemma_pad_run_single(s: Seq<u8>, e: Seq<u8>, p: spec_fn(u8) -> bool)
    requires
        e.len() == 1,
        forall|b: u8| #[trigger] p(b) == (b == e[0]),
    ensures
        pad_run_count(s, e) == run_of(s, p),
    decreases s.len(),
{
    if s.len() >= 1 {
        if s.take(1) == e {
            assert(p(s[0]));
            lemma_pad_run_single(s.skip(1), e, p);
            assert(s.drop_first() =~= s.skip(1));
        } else {
            if s[0] == e[0] {
                assert(s.take(1) =~= e);
            }
            assert(!p(s[0]));
        }
    }
}

/// Whether the first `n` elements of the two vectors agree.
fn vec_prefix_eq(a: &Vec<u8>, b: &Vec<u8>, n: usize) -> (r: bool)
    requires
        n <= a@.len(),
        n <= b@.len(),
    ensures
        r == (a@.take(n as int) == b@.take(n as int)),
{
    let mut j: usize = 0;
    while j < n
        invariant
            j <= n,
            n <= a@.len(),
            n <= b@.len(),
            forall|i: int| 0 <= i < j ==> a@[i] == b@[i],
        decreases n - j,
    {
        if a[j] != b[j] {
            proof {
                assert(a@.take(n as int)[j as int] != b@.take(n as int)[j as int]);
            }
            return false;
        }
        j = j + 1;
    }
    proof {
        assert(a@.take(n as int) =~= b@.take(n as int));
    }
    true
}

/// A lookahead buffer standing where a source is expected, re-exposing the
/// generic fill/consume contract so buffers compose: a buffer can feed
/// another buffer. The inner buffer sits behind an option so that its
/// well-formedness can be carried as a type invariant across the handoff
/// to each operation.
pub struct BufferedSource<S: ByteSource> {
    inner: Option<LookaheadBuffer<S>>,
}

impl<S: ByteSource> BufferedSource<S> {
    #[verifier::type_invariant]
    spec fn inv(&self) -> bool {
        match self.inner {
            Some(b) => b.wf(),
            None => true,
        }
    }

    pub fn new(buf: LookaheadBuffer<S>) -> (r: BufferedSource<S>)
        requires
            buf.wf(),
        ensures
            r.remaining() == buf.available(),
            r.view_len() == buf.view_len(),
            r.budget() == buf.budget(),
    {
        BufferedSource { inner: Some(buf) }
    }
}

impl<S: ByteSource> ByteSource for BufferedSource<S> {
    closed spec fn remaining(&self) -> Seq<u8> {
        match self.inner {
            Some(b) => b.available(),
            None => Seq::empty(),
        }
    }

    closed spec fn view_len(&self) -> nat {
        match self.inner {
            Some(b) => b.view_len(),
            None => 0,
        }
    }

    closed spec fn budget(&self) -> nat {
        match self.inner {
            Some(b) => b.budget(),
            None => 0,
        }
    }

    fn fill(&mut self) -> (r: Result<Vec<u8>, SourceError>) {
        proof {
            use_type_invariant(&*self);
        }
        let mut taken: Option<LookaheadBuffer<S>> = None;
        core::mem::swap(&mut taken, &mut self.inner);
        match taken {
            Some(mut b) => {
                let ghost b0 = b;
                let r = b.fill_request(0);
                proof {
                    match r {
                        Ok(_) => {},
                        Err(_) => {
                            assert(b.available() =~= b0.available());
                        },
                    }
                }
                self.inner = Some(b);
                r
            },
            None => Err(SourceError::EndOfInput),
        }
    }

    fn consume(&mut self, n: usize) {
        proof {
            use_type_invariant(&*self);
        }
        let mut taken: Option<LookaheadBuffer<S>> = None;
        core::mem::swap(&mut taken, &mut self.inner);
        match taken {
            Some(mut b) => {
                b.consume(n);
                self.inner = Some(b);
            },
            None => {
                proof {
                    assert(self.remaining() =~= Seq::<u8>::empty().skip(0));
                }
            },
        }
    }
}

} // verus!
