use vstd::prelude::*;

use vstd::utf8::encode_utf8;

use crate::codec::{
    decode, decoded, end_marker, frame_body, frame_of, lemma_value_avoids, valid_key,
    views, DecodeError, Message, DELIMITER, SEPARATOR,
};
use crate::numeral::{decimal_text, Decimal};

verus! {

/// The largest number of bytes a frame may hold before its delimiter.
pub const MAX_PAYLOAD: usize = 1024;

/// The stream broke the frame size cap: a peer sent more than the cap allows
/// without a delimiter.
#[derive(Clone, Copy, Debug, PartialEq, Eq)]
pub enum FrameError {
    FrameTooLarge,
}

/// The bytes after the last delimiter of `s`: the frame still being received.
pub open spec fn pending_of(s: Seq<u8>) -> Seq<u8>
    decreases s.len(),
{
    if s.len() == 0 {
        Seq::empty()
    } else if s.last() == DELIMITER {
        Seq::empty()
    } else {
        pending_of(s.drop_last()).push(s.last())
    }
}

/// The complete frames of `s`, in order, each with its delimiter.
pub open spec fn frames_of(s: Seq<u8>) -> Seq<Seq<u8>>
    decreases s.len(),
{
    if s.len() == 0 {
        Seq::empty()
    } else if s.last() == DELIMITER {
        frames_of(s.drop_last()).push(pending_of(s.drop_last()).push(DELIMITER))
    } else {
        frames_of(s.drop_last())
    }
}

/// True when, at some point of `s`, more than `max` bytes were waiting for a
/// delimiter.
pub open spec fn overflows(s: Seq<u8>, max: nat) -> bool
    decreases s.len(),
{
    s.len() > 0 && (overflows(s.drop_last(), max) || pending_of(s).len() > max)
}

/// Bytes without a delimiter are all pending, hold no frame, and overflow
/// exactly when they are longer than the cap.
pub proof fn lemma_no_delimiter(p: Seq<u8>, max: nat)
    requires
        !p.contains(DELIMITER),
    ensures
        pending_of(p) == p,
        frames_of(p) == Seq::<Seq<u8>>::empty(),
        overflows(p, max) == (p.len() > max),
    decreases p.len(),
{
    if p.len() > 0 {
        assert(!p.drop_last().contains(DELIMITER)) by {
            if p.drop_last().contains(DELIMITER) {
                let i = choose|i: int|
                    0 <= i < p.drop_last().len() && p.drop_last()[i] == DELIMITER;
                assert(p[i] == DELIMITER);
            }
        }
        assert(p[p.len() - 1] != DELIMITER);
        lemma_no_delimiter(p.drop_last(), max);
        assert(p.drop_last().push(p.last()) =~= p);
    } else {
        assert(p =~= Seq::<u8>::empty());
    }
}

/// Reading a stream in two pieces gives what reading it whole gives: the
/// frames of the first piece, then those of what was pending followed by the
/// second piece.
pub proof fn lemma_feed_split(a: Seq<u8>, b: Seq<u8>, max: nat)
    ensures
        frames_of(a + b) == frames_of(a) + frames_of(pending_of(a) + b),
        pending_of(a + b) == pending_of(pending_of(a) + b),
        overflows(a + b, max) == (overflows(a, max) || overflows(pending_of(a) + b, max)),
    decreases b.len(),
{
    lemma_pending_has_no_delimiter(a);
    if b.len() == 0 {
        assert(a + b =~= a);
        assert(pending_of(a) + b =~= pending_of(a));
        lemma_no_delimiter(pending_of(a), max);
        assert(frames_of(a) + Seq::<Seq<u8>>::empty() =~= frames_of(a));
    } else {
        lemma_feed_split(a, b.drop_last(), max);
        assert((a + b).drop_last() =~= a + b.drop_last());
        assert((pending_of(a) + b).drop_last() =~= pending_of(a) + b.drop_last());
        assert((a + b).last() == b.last());
        assert((pending_of(a) + b).last() == b.last());
        assert(frames_of(a + b) =~= frames_of(a) + frames_of(pending_of(a) + b));
    }
}

pub proof fn lemma_pending_has_no_delimiter(s: Seq<u8>)
    ensures
        !pending_of(s).contains(DELIMITER),
    decreases s.len(),
{
    if s.len() > 0 && s.last() != DELIMITER {
        lemma_pending_has_no_delimiter(s.drop_last());
        let p = pending_of(s);
        assert forall|i: int| 0 <= i < p.len() implies p[i] != DELIMITER by {
            if i < p.len() - 1 {
                assert(p[i] == pending_of(s.drop_last())[i]);
            }
        }
    }
}

/// Once a stream has overflowed, more bytes do not undo it.
pub proof fn lemma_overflow_extends(s: Seq<u8>, t: Seq<u8>, max: nat)
    requires
        overflows(s, max),
    ensures
        overflows(s + t, max),
    decreases t.len(),
{
    if t.len() == 0 {
        assert(s + t =~= s);
    } else {
        lemma_overflow_extends(s, t.drop_last(), max);
        assert((s + t).drop_last() =~= s + t.drop_last());
    }
}

/// The longest prefix of `s` at which no more than `max` bytes were waiting
/// for a delimiter: all of `s` when it never overflows.
pub open spec fn intact(s: Seq<u8>, max: nat) -> Seq<u8>
    decreases s.len(),
{
    if s.len() == 0 || !overflows(s, max) {
        s
    } else {
        intact(s.drop_last(), max)
    }
}

/// Where a stream first overflows, what is intact is the part before it.
pub proof fn lemma_intact_at(s: Seq<u8>, k: int, max: nat)
    requires
        0 <= k < s.len(),
        !overflows(s.take(k), max),
        overflows(s.take(k + 1), max),
    ensures
        intact(s, max) == s.take(k),
    decreases s.len(),
{
    lemma_overflow_extends(s.take(k + 1), s.skip(k + 1), max);
    assert(s.take(k + 1) + s.skip(k + 1) =~= s);
    assert(overflows(s, max));
    if s.len() == k + 1 {
        assert(s.drop_last() =~= s.take(k));
        assert(intact(s.take(k), max) == s.take(k));
    } else {
        let d = s.drop_last();
        assert(d.take(k) =~= s.take(k));
        assert(d.take(k + 1) =~= s.take(k + 1));
        lemma_intact_at(d, k, max);
    }
}

/// A payload without a delimiter, then the delimiter, is one frame and leaves
/// nothing pending.
pub proof fn lemma_one_frame(x: Seq<u8>, max: nat)
    requires
        !x.contains(DELIMITER),
    ensures
        frames_of(x.push(DELIMITER)) == seq![x.push(DELIMITER)],
        pending_of(x.push(DELIMITER)) == Seq::<u8>::empty(),
        overflows(x.push(DELIMITER), max) == (x.len() > max),
{
    lemma_no_delimiter(x, max);
    let f = x.push(DELIMITER);
    assert(f.drop_last() =~= x);
    assert(frames_of(f) =~= seq![f]);
}

/// The encoding of a message with a valid key is one frame whose payload holds
/// no delimiter.
pub proof fn lemma_frame_payload(key: Seq<char>, value: Decimal)
    requires
        valid_key(key),
    ensures
        frame_of(key, value) == frame_body(frame_of(key, value)).push(DELIMITER),
        !frame_body(frame_of(key, value)).contains(DELIMITER),
{
    let f = frame_of(key, value);
    let k = encode_utf8(key);
    let v = decimal_text(value);
    let body = k + seq![SEPARATOR] + v + seq![SEPARATOR] + end_marker();
    assert(f.drop_last() =~= body);
    assert(body.push(DELIMITER) =~= f);
    lemma_value_avoids(value, DELIMITER);
    assert forall|i: int| 0 <= i < body.len() implies body[i] != DELIMITER by {
        if i < k.len() {
            assert(body[i] == k[i]);
        } else if k.len() < i < k.len() + 1 + v.len() {
            assert(body[i] == v[i - k.len() - 1]);
        }
    }
}

/// The frame `garbage,`.
pub open spec fn garbage_frame() -> Seq<u8> {
    seq![103u8, 97u8, 114u8, 98u8, 97u8, 103u8, 101u8, DELIMITER]
}

/// The frames a reader hands out, in order, when the stream arrives as the
/// pieces `cs`, one per read, with `p` already buffered.
pub open spec fn frames_by_reads(p: Seq<u8>, cs: Seq<Seq<u8>>) -> Seq<Seq<u8>>
    decreases cs.len(),
{
    if cs.len() == 0 {
        Seq::empty()
    } else {
        frames_of(p + cs[0]) + frames_by_reads(pending_of(p + cs[0]), cs.drop_first())
    }
}

/// What a reader has buffered after the stream arrived as the pieces `cs`.
pub open spec fn pending_by_reads(p: Seq<u8>, cs: Seq<Seq<u8>>) -> Seq<u8>
    decreases cs.len(),
{
    if cs.len() == 0 {
        p
    } else {
        pending_by_reads(pending_of(p + cs[0]), cs.drop_first())
    }
}

/// True when some read of the pieces `cs` breaks the cap.
pub open spec fn reads_overflow(p: Seq<u8>, cs: Seq<Seq<u8>>, max: nat) -> bool
    decreases cs.len(),
{
    cs.len() > 0 && (overflows(p + cs[0], max) || reads_overflow(
        pending_of(p + cs[0]),
        cs.drop_first(),
        max,
    ))
}

/// However a stream is cut into reads, the reader hands out the frames of the
/// whole stream, in order, keeps the same bytes pending, and breaks the cap
/// exactly when the whole stream does (given that what was buffered is
/// within the cap).
pub proof fn lemma_reads_any_cut(p: Seq<u8>, cs: Seq<Seq<u8>>, max: nat)
    requires
        !p.contains(DELIMITER),
    ensures
        frames_by_reads(p, cs) == frames_of(p + cs.flatten()),
        pending_by_reads(p, cs) == pending_of(p + cs.flatten()),
        p.len() <= max ==> reads_overflow(p, cs, max) == overflows(p + cs.flatten(), max),
    decreases cs.len(),
{
    lemma_no_delimiter(p, max);
    if cs.len() == 0 {
        assert(p + cs.flatten() =~= p);
    } else {
        let a = p + cs[0];
        let rest = cs.drop_first();
        assert(p + cs.flatten() =~= a + rest.flatten());
        lemma_feed_split(a, rest.flatten(), max);
        lemma_pending_has_no_delimiter(a);
        lemma_no_delimiter(pending_of(a), max);
        lemma_reads_any_cut(pending_of(a), rest, max);
        if pending_of(a).len() > max {
            lemma_overflow_extends(pending_of(a), rest.flatten(), max);
            lemma_pending_overflows(a, max);
        }
    }
}

/// A stream whose pending bytes are over the cap has overflowed.
proof fn lemma_pending_overflows(s: Seq<u8>, max: nat)
    requires
        pending_of(s).len() > max,
    ensures
        overflows(s, max),
{
    if s.len() == 0 {
        assert(pending_of(s).len() == 0);
    }
}

/// Two encoded messages sent back to back come out as exactly those two
/// frames, in order, however the stream is cut into reads; each decodes to its
/// message, nothing stays pending, and no read breaks a cap that their
/// payloads fit.
pub proof fn lemma_two_messages(
    k1: Seq<char>,
    v1: Decimal,
    k2: Seq<char>,
    v2: Decimal,
    cs: Seq<Seq<u8>>,
    max: nat,
)
    requires
        valid_key(k1),
        valid_key(k2),
        cs.flatten() == frame_of(k1, v1) + frame_of(k2, v2),
        frame_of(k1, v1).len() <= max + 1,
        frame_of(k2, v2).len() <= max + 1,
    ensures
        frames_by_reads(Seq::empty(), cs) == seq![frame_of(k1, v1), frame_of(k2, v2)],
        pending_by_reads(Seq::empty(), cs) == Seq::<u8>::empty(),
        !reads_overflow(Seq::empty(), cs, max),
        decoded(frame_of(k1, v1)) == Some((k1, v1)),
        decoded(frame_of(k2, v2)) == Some((k2, v2)),
{
    let f1 = frame_of(k1, v1);
    let f2 = frame_of(k2, v2);
    let s = f1 + f2;
    lemma_frame_payload(k1, v1);
    lemma_frame_payload(k2, v2);
    lemma_one_frame(frame_body(f1), max);
    lemma_one_frame(frame_body(f2), max);
    lemma_feed_split(f1, f2, max);
    assert(pending_of(f1) + f2 =~= f2);
    lemma_reads_any_cut(Seq::empty(), cs, max);
    assert(Seq::<u8>::empty() + cs.flatten() =~= s);
    assert(frames_of(s) =~= seq![f1, f2]);
    crate::codec::lemma_round_trip(k1, v1);
    crate::codec::lemma_round_trip(k2, v2);
}

/// A malformed frame followed by a valid one gives exactly those two frames,
/// however the stream is cut into reads: the first fails to decode, the second
/// decodes to its message, and nothing breaks a cap that the payload fits.
pub proof fn lemma_malformed_then_valid(key: Seq<char>, value: Decimal, cs: Seq<Seq<u8>>, max: nat)
    requires
        valid_key(key),
        cs.flatten() == garbage_frame() + frame_of(key, value),
        frame_of(key, value).len() <= max + 1,
        garbage_frame().len() <= max + 1,
    ensures
        frames_by_reads(Seq::empty(), cs) == seq![garbage_frame(), frame_of(key, value)],
        pending_by_reads(Seq::empty(), cs) == Seq::<u8>::empty(),
        !reads_overflow(Seq::empty(), cs, max),
        frames_of(garbage_frame() + frame_of(key, value)) == seq![
            garbage_frame(),
            frame_of(key, value),
        ],
        pending_of(garbage_frame() + frame_of(key, value)) == Seq::<u8>::empty(),
        decoded(garbage_frame()).is_none(),
        decoded(frame_of(key, value)) == Some((key, value)),
{
    let g = garbage_frame();
    let f = frame_of(key, value);
    let gb = g.drop_last();
    assert(gb.push(DELIMITER) =~= g);
    assert(!gb.contains(DELIMITER)) by {
        assert forall|i: int| 0 <= i < gb.len() implies gb[i] != DELIMITER by {}
    }
    assert(!gb.contains(SEPARATOR)) by {
        assert forall|i: int| 0 <= i < gb.len() implies gb[i] != SEPARATOR by {}
    }
    lemma_one_frame(gb, max);
    lemma_frame_payload(key, value);
    lemma_one_frame(frame_body(f), max);
    lemma_feed_split(g, f, max);
    lemma_reads_any_cut(Seq::empty(), cs, max);
    assert(Seq::<u8>::empty() + cs.flatten() =~= g + f);
    assert(pending_of(g) + f =~= f);
    assert(frame_body(g) == gb);
    assert(crate::codec::trim_start(gb) == gb);
    crate::codec::lemma_split_single(gb);
    crate::codec::lemma_round_trip(key, value);
}

/// Reassembles delimiter-terminated frames from the pieces a stream arrives in.
pub struct FrameReader {
    pending: Vec<u8>,
    max: usize,
}

/// A decode outcome that agrees with what the frame holds.
pub open spec fn event_matches(e: Result<Message, DecodeError>, f: Seq<u8>) -> bool {
    match e {
        Ok(m) => decoded(f) == Some((m.key@, m.value)),
        Err(_) => decoded(f).is_none(),
    }
}

impl FrameReader {
    /// The bytes received since the last delimiter.
    pub closed spec fn buffered(&self) -> Seq<u8> {
        self.pending@
    }

    /// The cap on the bytes of a frame before its delimiter.
    pub closed spec fn max_payload(&self) -> nat {
        self.max as nat
    }

    pub open spec fn wf(&self) -> bool {
        !self.buffered().contains(DELIMITER) && self.buffered().len() <= self.max_payload()
    }

    /// A reader with nothing buffered and the given cap.
    pub fn new(max_payload: usize) -> (r: FrameReader)
        ensures
            r.wf(),
            r.buffered() == Seq::<u8>::empty(),
            r.max_payload() == max_payload,
    {
        FrameReader { pending: Vec::new(), max: max_payload }
    }

    /// The number of bytes waiting for a delimiter.
    pub fn buffered_len(&self) -> (r: usize)
        ensures
            r == self.buffered().len(),
    {
        self.pending.len()
    }

    /// Takes the next piece of the stream and returns the frames it completes,
    /// in order. When more than the cap would wait for a delimiter, it also
    /// reports the overflow, returns the frames completed before that point,
    /// and drops what was buffered.
    pub fn feed(&mut self, chunk: &[u8]) -> (r: (Vec<Vec<u8>>, Option<FrameError>))
        requires
            old(self).wf(),
        ensures
            final(self).wf(),
            final(self).max_payload() == old(self).max_payload(),
            ({
                let s = old(self).buffered() + chunk@;
                let max = old(self).max_payload();
                &&& views(r.0@) == frames_of(intact(s, max))
                &&& r.1.is_none() == !overflows(s, max)
                &&& r.1.is_none() ==> final(self).buffered() == pending_of(s)
                &&& r.1.is_some() ==> final(self).buffered() == Seq::<u8>::empty()
            }),
    {
        let ghost start = self.pending@;
        let ghost max = self.max as nat;
        proof {
            lemma_no_delimiter(start, max);
        }
        let mut out: Vec<Vec<u8>> = Vec::new();
        let mut i: usize = 0;
        while i < chunk.len()
            invariant
                i <= chunk.len(),
                self.max == max,
                max == old(self).max_payload(),
                start == old(self).buffered(),
                self.wf(),
                self.pending@ == pending_of(start + chunk@.take(i as int)),
                views(out@) == frames_of(start + chunk@.take(i as int)),
                !overflows(start + chunk@.take(i as int), max),
            decreases chunk.len() - i,
        {
            let c = chunk[i];
            let ghost s = start + chunk@.take(i + 1);
            assert(s.drop_last() =~= start + chunk@.take(i as int));
            assert(s.last() == c);
            if c == DELIMITER {
                let mut frame = Vec::new();
                std::mem::swap(&mut frame, &mut self.pending);
                frame.push(DELIMITER);
                let ghost before = views(out@);
                out.push(frame);
                assert(views(out@) =~= before.push(frame@));
                assert(self.pending@ =~= Seq::<u8>::empty());
            } else {
                if self.pending.len() >= self.max {
                    proof {
                        let whole = start + chunk@;
                        let k = start.len() + i;
                        assert(whole.take(k) =~= start + chunk@.take(i as int));
                        assert(whole.take(k + 1) =~= s);
                        lemma_intact_at(whole, k, max);
                        assert(overflows(s, max));
                        lemma_overflow_extends(s, chunk@.skip(i + 1), max);
                        assert(s + chunk@.skip(i + 1) =~= whole);
                    }
                    self.pending = Vec::new();
                    assert(self.pending@ =~= Seq::<u8>::empty());
                    return (out, Some(FrameError::FrameTooLarge));
                }
                let ghost before = self.pending@;
                self.pending.push(c);
                assert(!self.pending@.contains(DELIMITER)) by {
                    assert forall|k: int| 0 <= k < self.pending@.len() implies self.pending@[k]
                        != DELIMITER by {
                        if k < before.len() {
                            assert(self.pending@[k] == before[k]);
                        }
                    }
                }
            }
            i = i + 1;
        }
        assert(chunk@.take(i as int) =~= chunk@);
        (out, None)
    }

    /// Takes the next piece of the stream and decodes each frame it completes.
    /// A malformed frame gives a decode error in its place, and reading goes
    /// on with the next frame. On an overflow, the frames completed before it
    /// are still decoded and returned beside the error.
    pub fn receive(&mut self, chunk: &[u8]) -> (r: (
        Vec<Result<Message, DecodeError>>,
        Option<FrameError>,
    ))
        requires
            old(self).wf(),
        ensures
            final(self).wf(),
            final(self).max_payload() == old(self).max_payload(),
            ({
                let s = old(self).buffered() + chunk@;
                let max = old(self).max_payload();
                let fs = frames_of(intact(s, max));
                &&& r.0@.len() == fs.len()
                &&& forall|k: int| 0 <= k < fs.len() ==> event_matches(#[trigger] r.0@[k], fs[k])
                &&& r.1.is_none() == !overflows(s, max)
                &&& r.1.is_none() ==> final(self).buffered() == pending_of(s)
                &&& r.1.is_some() ==> final(self).buffered() == Seq::<u8>::empty()
            }),
    {
        let (frames, error) = self.feed(chunk);
        (decode_all(&frames), error)
    }
}

/// Decodes each frame, in order.
fn decode_all(frames: &Vec<Vec<u8>>) -> (r: Vec<Result<Message, DecodeError>>)
    ensures
        r@.len() == frames@.len(),
        forall|k: int| 0 <= k < frames@.len() ==> event_matches(#[trigger] r@[k], views(frames@)[k]),
{
    let mut events: Vec<Result<Message, DecodeError>> = Vec::new();
    let mut k: usize = 0;
    while k < frames.len()
        invariant
            k <= frames.len(),
            events@.len() == k,
            forall|j: int| 0 <= j < k ==> event_matches(#[trigger] events@[j], views(frames@)[j]),
        decreases frames.len() - k,
    {
        let e = decode(frames[k].as_slice());
        events.push(e);
        k = k + 1;
    }
    events
}

} // verus!
