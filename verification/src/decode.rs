//! The incremental decoder: bytes in, one outcome per JSON value out.
//!
//! A [`Decoder`] is fed the bytes of the response body in chunks of any
//! size, and is polled for the next delimited value.  Its contract ties
//! everything it hands out to [`outcomes_of`], the outcome stream of the
//! bytes it has accepted — so the outcomes depend on the concatenated
//! bytes alone, never on how they were chunked.

use vstd::prelude::*;
use crate::Error;
use crate::ext::json_accepts;
use crate::ext::json_from_slice;
use crate::scan::Scan;
use crate::scan::ScanStep;
use crate::scan::StreamItem;
use crate::scan::is_frame;
use crate::scan::lemma_outcomes_step_garbage;
use crate::scan::lemma_outcomes_step_value;
use crate::scan::lemma_spliced_outcomes;
use crate::scan::outcomes_of;
use crate::scan::scan_next;
use crate::scan::scan_value;
use crate::scan::spliced;
use crate::scan::ws_only;

verus! {

/// Whether decoding an item of the outcome stream succeeds: the item's
/// bytes are handed to serde_json as one JSON text.
pub open spec fn item_ok(o: StreamItem) -> bool {
    match o {
        StreamItem::Value(v) => json_accepts(v),
        StreamItem::Garbage(r) => json_accepts(r),
    }
}

/// What one poll of the decoder reports.
pub enum Framing {
    /// The bytes of one delimited value.
    Value(Vec<u8>),
    /// The undecodable remainder of the stream; the last item ever produced.
    Junk(Vec<u8>),
    /// The boundary of the next value is not in the buffer yet.
    Pending,
    /// The outcome stream has ended: nothing was left but whitespace, an
    /// unfinished value cut off by the end of the stream, or items already
    /// handed out.
    End,
}

/// Incremental discovery of value boundaries in a byte stream.
pub struct Decoder {
    buf: Vec<u8>,
    fin: bool,
    seal: bool,
    hist: Ghost<Seq<u8>>,
    emitted: Ghost<Seq<StreamItem>>,
}

fn copy_range(v: &Vec<u8>, from: usize, to: usize) -> (r: Vec<u8>)
    requires
        from <= to <= v@.len(),
    ensures
        r@ == v@.subrange(from as int, to as int),
{
    let mut r: Vec<u8> = Vec::new();
    let mut i: usize = from;
    while i < to
        invariant
            from <= i <= to <= v@.len(),
            r@ == v@.subrange(from as int, i as int),
        decreases to - i,
    {
        r.push(v[i]);
        assert(v@.subrange(from as int, i as int + 1) =~= v@.subrange(from as int, i as int).push(
            v@[i as int],
        ));
        i = i + 1;
    }
    r
}

impl Decoder {
    /// All bytes this decoder has accepted, in order.
    pub closed spec fn history(self) -> Seq<u8> {
        self.hist@
    }

    /// The items handed out so far, in order.
    pub closed spec fn emitted(self) -> Seq<StreamItem> {
        self.emitted@
    }

    /// Whether the decoder still accepts bytes: it does until the caller
    /// declares the end of the stream or the outcome stream ends.
    pub closed spec fn accepting(self) -> bool {
        !self.seal && !self.fin
    }

    /// Whether the outcome stream has ended.
    pub closed spec fn ended(self) -> bool {
        self.fin
    }

    /// The decoder's soundness invariant: what it has emitted, followed by
    /// the outcomes still to come from the buffered bytes, is exactly the
    /// outcome stream of the accepted bytes — whatever arrives later, as
    /// long as the decoder accepts input.
    pub closed spec fn inv(self) -> bool {
        if self.fin {
            self.emitted@ == outcomes_of(self.hist@)
        } else if self.seal {
            outcomes_of(self.hist@) == self.emitted@ + outcomes_of(self.buf@)
        } else {
            forall|t: Seq<u8>|
                outcomes_of(self.hist@ + t) == self.emitted@ + #[trigger] outcomes_of(
                    self.buf@ + t,
                )
        }
    }

    /// A fresh decoder: nothing accepted, nothing emitted.
    pub fn new() -> (d: Decoder)
        ensures
            d.inv(),
            d.history() == Seq::<u8>::empty(),
            d.emitted() == Seq::<StreamItem>::empty(),
            d.accepting(),
            !d.ended(),
    {
        let d = Decoder {
            buf: Vec::new(),
            fin: false,
            seal: false,
            hist: Ghost(Seq::empty()),
            emitted: Ghost(Seq::empty()),
        };
        proof {
            assert forall|t: Seq<u8>|
                outcomes_of(d.hist@ + t) == d.emitted@ + #[trigger] outcomes_of(
                    d.buf@ + t,
                ) by {
                assert(d.hist@ + t =~= d.buf@ + t);
                assert(d.emitted@ + outcomes_of(d.buf@ + t) =~= outcomes_of(d.buf@ + t));
            }
        }
        d
    }

    /// Accept one chunk of the stream.  The chunk may be of any size,
    /// including empty: outcomes never depend on the chunking.  Once the
    /// decoder no longer accepts input, feeding is a no-op.
    pub fn feed(&mut self, chunk: &[u8])
        requires
            old(self).inv(),
        ensures
            final(self).inv(),
            old(self).accepting() ==> final(self).history() == old(self).history() + chunk@,
            !old(self).accepting() ==> final(self).history() == old(self).history(),
            final(self).emitted() == old(self).emitted(),
            final(self).accepting() == old(self).accepting(),
            final(self).ended() == old(self).ended(),
    {
        if self.seal || self.fin {
            return ;
        }
        let ghost old_hist = self.hist@;
        let ghost old_buf = self.buf@;
        self.buf.extend_from_slice(chunk);
        proof {
            self.hist@ = old_hist + chunk@;
            assert forall|t: Seq<u8>|
                outcomes_of(self.hist@ + t) == self.emitted@ + #[trigger] outcomes_of(
                    self.buf@ + t,
                ) by {
                assert(self.hist@ + t =~= old_hist + (chunk@ + t));
                assert(self.buf@ + t =~= old_buf + (chunk@ + t));
                assert(outcomes_of(old_hist + (chunk@ + t)) == old(self).emitted@
                    + outcomes_of(old_buf + (chunk@ + t)));
            }
        }
    }

    /// Look for the next outcome.  `eof` declares that no bytes will ever
    /// be fed again; the first call with `eof` stops the decoder accepting
    /// input, and polling then drains the remaining outcomes until `End`.
    ///
    /// `End` is definitive: the items emitted over the decoder's lifetime
    /// are then exactly the outcome stream of the accepted bytes.
    pub fn next_frame(&mut self, eof: bool) -> (r: Framing)
        requires
            old(self).inv(),
        ensures
            final(self).inv(),
            final(self).history() == old(self).history(),
            final(self).accepting() == (old(self).accepting() && !eof && !final(self).ended()),
            match r {
                Framing::Value(v) => final(self).emitted() == old(self).emitted().push(
                    StreamItem::Value(v@),
                ) && !final(self).ended(),
                Framing::Junk(j) => final(self).emitted() == old(self).emitted().push(
                    StreamItem::Garbage(j@),
                ) && final(self).ended(),
                Framing::Pending => !eof && final(self).emitted() == old(self).emitted()
                    && !final(self).ended(),
                Framing::End => final(self).emitted() == old(self).emitted() && final(self).ended()
                    && final(self).emitted() == outcomes_of(final(self).history()),
            },
            old(self).ended() ==> r is End,
    {
        if self.fin {
            if eof && !self.seal {
                self.seal = true;
            }
            return Framing::End;
        }
        if eof && !self.seal {
            proof {
                let t0 = Seq::<u8>::empty();
                assert(outcomes_of(self.hist@ + t0) == self.emitted@ + outcomes_of(
                    self.buf@ + t0,
                ));
                assert(self.hist@ + t0 =~= self.hist@);
                assert(self.buf@ + t0 =~= self.buf@);
            }
            self.seal = true;
        }
        let sealed = self.seal;
        let step = scan_next(self.buf.as_slice(), sealed);
        let ghost b = self.buf@;
        let ghost em = self.emitted@;
        match step {
            ScanStep::Found { start, end } => {
                let frame = copy_range(&self.buf, start, end);
                let rest = copy_range(&self.buf, end, self.buf.len());
                proof {
                    assert(frame@ == b.subrange(start as int, end as int));
                    assert(rest@ =~= b.skip(end as int));
                }
                self.buf = rest;
                proof {
                    self.emitted@ = em.push(StreamItem::Value(frame@));
                    if sealed {
                        assert(scan_value(b, true) == (Scan::Found {
                            start: start as int,
                            end: end as int,
                        }));
                        assert(outcomes_of(b) == seq![StreamItem::Value(frame@)] + outcomes_of(
                            b.skip(end as int),
                        ));
                        assert(self.emitted@ + outcomes_of(self.buf@) =~= em + (seq![
                            StreamItem::Value(frame@),
                        ] + outcomes_of(b.skip(end as int))));
                    } else {
                        assert(scan_value(b, false) == (Scan::Found {
                            start: start as int,
                            end: end as int,
                        }));
                        assert forall|t: Seq<u8>|
                            outcomes_of(self.hist@ + t) == self.emitted@
                                + #[trigger] outcomes_of(self.buf@ + t) by {
                            assert(outcomes_of(self.hist@ + t) == em + outcomes_of(b + t));
                            lemma_outcomes_step_value(b, t);
                            assert(outcomes_of(b + t) == seq![StreamItem::Value(frame@)]
                                + outcomes_of(b.skip(end as int) + t));
                            assert(self.emitted@ + outcomes_of(self.buf@ + t) =~= em + (seq![
                                StreamItem::Value(frame@),
                            ] + outcomes_of(b.skip(end as int) + t)));
                        }
                    }
                }
                Framing::Value(frame)
            },
            ScanStep::More => {
                assert(!sealed);
                Framing::Pending
            },
            ScanStep::Stop => {
                assert(sealed);
                self.fin = true;
                proof {
                    assert(outcomes_of(b) == Seq::<StreamItem>::empty());
                    assert(em + outcomes_of(b) =~= em);
                }
                Framing::End
            },
            ScanStep::Bad { start } => {
                let junk = copy_range(&self.buf, start, self.buf.len());
                proof {
                    assert(junk@ =~= b.skip(start as int));
                }
                self.buf = Vec::new();
                self.fin = true;
                proof {
                    self.emitted@ = em.push(StreamItem::Garbage(junk@));
                    if sealed {
                        assert(scan_value(b, true) == (Scan::Bad { start: start as int }));
                        assert(outcomes_of(b) == seq![StreamItem::Garbage(junk@)]);
                    } else {
                        let t0 = Seq::<u8>::empty();
                        assert(outcomes_of(self.hist@ + t0) == em + outcomes_of(b + t0));
                        assert(self.hist@ + t0 =~= self.hist@);
                        assert(b + t0 =~= b);
                        assert(scan_value(b, false) == (Scan::Bad { start: start as int }));
                        lemma_outcomes_step_garbage(b, t0);
                        assert(b.skip(start as int) + t0 =~= junk@);
                    }
                    assert(em + seq![StreamItem::Garbage(junk@)] =~= self.emitted@);
                }
                Framing::Junk(junk)
            },
        }
    }

    /// What has been emitted is always a prefix of the outcome stream of
    /// the accepted bytes.
    pub proof fn lemma_emitted_prefix(&self)
        requires
            self.inv(),
        ensures
            self.emitted().len() <= outcomes_of(self.history()).len(),
            self.emitted() == outcomes_of(self.history()).take(self.emitted().len() as int),
    {
        if self.fin {
            assert(outcomes_of(self.hist@).take(self.emitted@.len() as int) =~= self.emitted@);
        } else if self.seal {
            assert(outcomes_of(self.hist@).take(self.emitted@.len() as int) =~= self.emitted@);
        } else {
            let t0 = Seq::<u8>::empty();
            assert(outcomes_of(self.hist@ + t0) == self.emitted@ + outcomes_of(self.buf@ + t0));
            assert(self.hist@ + t0 =~= self.hist@);
            assert(outcomes_of(self.hist@).take(self.emitted@.len() as int) =~= self.emitted@);
        }
    }
}

/// Decode the bytes of one delimited value into a dynamic JSON tree.
///
/// Succeeds exactly when serde_json accepts the bytes; a rejection is the
/// per-value `DecodeFailed` outcome, never the end of the stream.
pub fn decode_frame(frame: &[u8]) -> (r: Result<serde_json::Value, Error>)
    ensures
        r.is_ok() == json_accepts(frame@),
        r matches Err(e) ==> e is DecodeFailed,
{
    match json_from_slice(frame) {
        Ok(v) => Ok(v),
        Err(e) => Err(Error::DecodeFailed(e)),
    }
}

/// The outcomes of a watch depend on the bytes of the stream alone.
///
/// Two decoders that accepted the same bytes over their lifetimes — in
/// however many chunks of whatever sizes, polled however often — have
/// emitted exactly the same items in the same order once their outcome
/// streams end.
pub proof fn lemma_outcomes_depend_on_bytes_alone(a: Decoder, b: Decoder)
    requires
        a.inv(),
        b.inv(),
        a.ended(),
        b.ended(),
        a.history() == b.history(),
    ensures
        a.emitted() == b.emitted(),
{
}

/// One bad value never truncates the stream.
///
/// In the outcome stream of a whitespace-interleaved concatenation of
/// self-delimiting values, every value has exactly one item, in order;
/// item `k` decodes successfully exactly where serde_json accepts value
/// `k`'s own bytes, whatever the other values hold.  So a value that is
/// delimited but undecodable costs one failed outcome and nothing more.
pub proof fn lemma_bad_value_does_not_truncate(
    gaps: Seq<Seq<u8>>,
    vals: Seq<Seq<u8>>,
    tail: Seq<u8>,
)
    requires
        gaps.len() == vals.len(),
        forall|k: int| 0 <= k < gaps.len() ==> ws_only(#[trigger] gaps[k]),
        forall|k: int| 0 <= k < vals.len() ==> is_frame(#[trigger] vals[k]),
        scan_value(tail, true) == Scan::Stop,
    ensures
        outcomes_of(spliced(gaps, vals, tail)).len() == vals.len(),
        forall|k: int|
            0 <= k < vals.len() ==> outcomes_of(spliced(gaps, vals, tail))[k] == StreamItem::Value(
                vals[k],
            ),
        forall|k: int|
            0 <= k < vals.len() ==> item_ok(outcomes_of(spliced(gaps, vals, tail))[k])
                == json_accepts(vals[k]),
{
    lemma_spliced_outcomes(gaps, vals, tail);
}

/// Run a whole byte stream through a fresh decoder and decode every
/// delimited value: one result per item of the stream's outcome sequence,
/// in stream order, each successful exactly where serde_json accepts that
/// item's bytes.
pub fn decode_all(input: &[u8]) -> (r: Vec<Result<serde_json::Value, Error>>)
    ensures
        r@.len() == outcomes_of(input@).len(),
        forall|k: int|
            0 <= k < r@.len() ==> (#[trigger] r@[k]).is_ok() == item_ok(outcomes_of(input@)[k]),
        forall|k: int| 0 <= k < r@.len() ==> ((#[trigger] r@[k]) matches Err(e) ==> e is DecodeFailed),
{
    let mut d = Decoder::new();
    d.feed(input);
    proof {
        assert(d.history() =~= input@);
    }
    let mut out: Vec<Result<serde_json::Value, Error>> = Vec::new();
    loop
        invariant
            d.inv(),
            d.history() == input@,
            out@.len() == d.emitted().len(),
            forall|k: int|
                0 <= k < out@.len() ==> (#[trigger] out@[k]).is_ok() == item_ok(d.emitted()[k]),
            forall|k: int|
                0 <= k < out@.len() ==> ((#[trigger] out@[k]) matches Err(e) ==> e is DecodeFailed),
        ensures
            d.emitted() == outcomes_of(input@),
            out@.len() == d.emitted().len(),
            forall|k: int|
                0 <= k < out@.len() ==> (#[trigger] out@[k]).is_ok() == item_ok(d.emitted()[k]),
            forall|k: int|
                0 <= k < out@.len() ==> ((#[trigger] out@[k]) matches Err(e) ==> e is DecodeFailed),
        decreases outcomes_of(input@).len() - out@.len() + 1,
    {
        proof {
            d.lemma_emitted_prefix();
        }
        match d.next_frame(true) {
            Framing::Value(v) => {
                let res = decode_frame(v.as_slice());
                out.push(res);
            },
            Framing::Junk(j) => {
                let res = decode_frame(j.as_slice());
                out.push(res);
            },
            Framing::Pending => {
                assert(false);
                break ;
            },
            Framing::End => {
                break ;
            },
        }
    }
    out
}

} // verus!
