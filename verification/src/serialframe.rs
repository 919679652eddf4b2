//! The escape (byte-stuffing) framer.
//!
//! Frames are delimited by `STX` (0x02) and `ETX` (0x03). A payload byte
//! that collides with a control byte is sent as `ESC` (0x04) followed by
//! its bitwise complement; the decoder applies the complement again, which
//! restores the original byte. A stray `STX` discards any partial frame and
//! starts a fresh one, so the decoder resynchronises after noise or a
//! truncated frame and never reports an error.

use vstd::prelude::*;

use crate::dataframer;

verus! {

/// The frame start / resynchronisation byte.
pub const STX: u8 = 0x02;

/// The frame end byte.
pub const ETX: u8 = 0x03;

/// The escape byte: the next literal byte is the complement of a payload byte.
pub const ESC: u8 = 0x04;

/// The decoder state of the escape framer, as the contracts see it:
/// the payload bytes accumulated for the frame in progress, plus the three
/// decode flags.
#[verifier::ext_equal]
pub ghost struct DecodeState {
    /// Payload bytes of the frame currently being assembled.
    pub data: Seq<u8>,
    /// The next literal byte must be un-escaped (complemented).
    pub next_stuffed: bool,
    /// An opening `STX` has been seen and no closing `ETX` yet.
    pub started: bool,
    /// A frame is fully assembled and ready to be extracted.
    pub done: bool,
}

/// The state of a fresh (or just reset) decoder.
pub open spec fn init_state() -> DecodeState {
    DecodeState { data: Seq::empty(), next_stuffed: false, started: false, done: false }
}

/// A decoder in the middle of a frame with payload `data` so far: started,
/// no pending escape, no completed frame.
pub open spec fn collecting(data: Seq<u8>) -> DecodeState {
    DecodeState { data: data, next_stuffed: false, started: true, done: false }
}

/// The decoder invariant: an escape can only be pending inside a frame.
pub open spec fn wf(s: DecodeState) -> bool {
    s.next_stuffed ==> s.started
}

/// One step of the decoder: the state after consuming the single byte `b`.
///
/// `STX` unconditionally discards any partial frame and starts a new one;
/// `ETX` completes the frame if one is in progress; `ESC` marks the next
/// literal byte for un-escaping; any other byte is appended (complemented if
/// an escape is pending) when inside a frame and dropped otherwise.
pub open spec fn step(s: DecodeState, b: u8) -> DecodeState {
    if b == STX {
        DecodeState { data: Seq::empty(), next_stuffed: false, started: true, done: false }
    } else if b == ETX {
        DecodeState { done: s.started, ..s }
    } else if b == ESC {
        DecodeState { next_stuffed: s.started, ..s }
    } else if s.started {
        DecodeState {
            data: s.data.push(if s.next_stuffed { !b } else { b }),
            next_stuffed: false,
            ..s
        }
    } else {
        s
    }
}

/// The decoder state after consuming all of `bytes` from state `s`,
/// extracting (and resetting after) each completed frame along the way.
pub open spec fn run_state(s: DecodeState, bytes: Seq<u8>) -> DecodeState
    decreases bytes.len(),
{
    if bytes.len() == 0 {
        s
    } else {
        let s1 = step(s, bytes[0]);
        let s2 = if s1.done { init_state() } else { s1 };
        run_state(s2, bytes.drop_first())
    }
}

/// The frames completed while consuming `bytes` from state `s`, in the
/// order their closing bytes appeared.
pub open spec fn run_frames(s: DecodeState, bytes: Seq<u8>) -> Seq<Seq<u8>>
    decreases bytes.len(),
{
    if bytes.len() == 0 {
        Seq::empty()
    } else {
        let s1 = step(s, bytes[0]);
        if s1.done {
            seq![s1.data] + run_frames(init_state(), bytes.drop_first())
        } else {
            run_frames(s1, bytes.drop_first())
        }
    }
}

/// The wire bytes for the single payload byte `b`: escaped and complemented
/// if it collides with a control byte, unchanged otherwise.
pub open spec fn encode_byte(b: u8) -> Seq<u8> {
    if b == STX || b == ETX || b == ESC {
        seq![ESC, !b]
    } else {
        seq![b]
    }
}

/// The wire bytes for the payload `data`, without the frame delimiters.
pub open spec fn encode_bytes(data: Seq<u8>) -> Seq<u8>
    decreases data.len(),
{
    if data.len() == 0 {
        Seq::empty()
    } else {
        encode_byte(data[0]) + encode_bytes(data.drop_first())
    }
}

/// The full wire representation of one frame with payload `data`.
pub open spec fn encode_spec(data: Seq<u8>) -> Seq<u8> {
    seq![STX] + encode_bytes(data) + seq![ETX]
}

/// The decoder invariant is preserved by every byte consumed: an escape can
/// only ever be pending inside a frame.
pub proof fn lemma_step_preserves_wf(s: DecodeState, b: u8)
    requires
        wf(s),
    ensures
        wf(step(s, b)),
{
}

/// Decoding is compositional over input chunks: consuming `a + b` in one
/// call leaves the decoder exactly as consuming `a` and then `b` does, and
/// yields the frames of `a` followed by the frames completed in `b`. This is
/// why frames split across reads are reassembled correctly.
pub proof fn lemma_run_append(s: DecodeState, a: Seq<u8>, b: Seq<u8>)
    ensures
        run_state(s, a + b) == run_state(run_state(s, a), b),
        run_frames(s, a + b) == run_frames(s, a) + run_frames(run_state(s, a), b),
    decreases a.len(),
{
    if a.len() == 0 {
        assert(a + b =~= b);
        assert(run_frames(s, a) + run_frames(run_state(s, a), b) =~= run_frames(s, b));
    } else {
        let s1 = step(s, a[0]);
        let s2 = if s1.done {
            init_state()
        } else {
            s1
        };
        assert((a + b)[0] == a[0]);
        assert((a + b).drop_first() =~= a.drop_first() + b);
        lemma_run_append(s2, a.drop_first(), b);
        if s1.done {
            assert(seq![s1.data] + (run_frames(s2, a.drop_first()) + run_frames(
                run_state(s2, a.drop_first()),
                b,
            )) =~= (seq![s1.data] + run_frames(s2, a.drop_first())) + run_frames(
                run_state(s2, a.drop_first()),
                b,
            ));
        }
    }
}

/// Consuming a single byte is one `step`, followed by a reset if that byte
/// completed a frame; the completed frame, if any, is the one emitted.
proof fn lemma_run_one(s: DecodeState, b: u8)
    ensures
        run_state(s, seq![b]) == (if step(s, b).done {
            init_state()
        } else {
            step(s, b)
        }),
        run_frames(s, seq![b]) == (if step(s, b).done {
            seq![step(s, b).data]
        } else {
            Seq::<Seq<u8>>::empty()
        }),
{
    let s1 = step(s, b);
    let s2 = if s1.done {
        init_state()
    } else {
        s1
    };
    assert(seq![b][0] == b);
    assert(seq![b].drop_first() =~= Seq::<u8>::empty());
    assert(run_state(s, seq![b]) == run_state(s2, seq![b].drop_first()));
    assert(run_state(s2, Seq::<u8>::empty()) == s2);
    if s1.done {
        assert(run_frames(s, seq![b]) == seq![s1.data] + run_frames(
            init_state(),
            seq![b].drop_first(),
        ));
        assert(run_frames(init_state(), Seq::<u8>::empty()) == Seq::<Seq<u8>>::empty());
        assert(seq![s1.data] + Seq::<Seq<u8>>::empty() =~= seq![s1.data]);
    } else {
        assert(run_frames(s, seq![b]) == run_frames(s1, seq![b].drop_first()));
        assert(run_frames(s1, Seq::<u8>::empty()) == Seq::<Seq<u8>>::empty());
    }
}

/// Consuming the escaped wire bytes of a payload `x` while inside a frame
/// appends exactly `x` to the frame in progress and completes nothing.
proof fn lemma_encode_bytes_collect(d: Seq<u8>, x: Seq<u8>)
    ensures
        run_state(collecting(d), encode_bytes(x)) == collecting(d + x),
        run_frames(collecting(d), encode_bytes(x)) == Seq::<Seq<u8>>::empty(),
    decreases x.len(),
{
    if x.len() == 0 {
        assert(d + x =~= d);
    } else {
        let b = x[0];
        let eb = encode_byte(b);
        lemma_run_append(collecting(d), eb, encode_bytes(x.drop_first()));
        if b == STX || b == ETX || b == ESC {
            assert(!b != STX && !b != ETX && !b != ESC) by (bit_vector)
                requires
                    b == 0x02 || b == 0x03 || b == 0x04,
            ;
            assert(!(!b) == b) by (bit_vector);
            assert(eb =~= seq![ESC] + seq![!b]);
            lemma_run_append(collecting(d), seq![ESC], seq![!b]);
            lemma_run_one(collecting(d), ESC);
            let s_esc = step(collecting(d), ESC);
            lemma_run_one(s_esc, !b);
            assert(step(s_esc, !b) =~= collecting(d.push(b)));
            assert(run_state(collecting(d), eb) == collecting(d.push(b)));
            assert(run_frames(collecting(d), eb) =~= Seq::<Seq<u8>>::empty());
        } else {
            assert(eb =~= seq![b]);
            lemma_run_one(collecting(d), b);
            assert(step(collecting(d), b) =~= collecting(d.push(b)));
            assert(run_state(collecting(d), eb) == collecting(d.push(b)));
        }
        lemma_encode_bytes_collect(d.push(b), x.drop_first());
        assert(d.push(b) + x.drop_first() =~= d + x);
        assert(Seq::<Seq<u8>>::empty() + Seq::<Seq<u8>>::empty() =~= Seq::<Seq<u8>>::empty());
    }
}

/// Round trip: feeding the full encoding of any payload `x` (control bytes
/// included) to a fresh decoder yields exactly the one frame `x` and leaves
/// the decoder fresh again.
pub proof fn lemma_round_trip(x: Seq<u8>)
    ensures
        run_frames(init_state(), encode_spec(x)) == seq![x],
        run_state(init_state(), encode_spec(x)) == init_state(),
{
    let stx = seq![STX];
    let etx = seq![ETX];
    let mid = encode_bytes(x);
    let none = Seq::<u8>::empty();
    assert(encode_spec(x) =~= stx + (mid + etx));
    lemma_run_append(init_state(), stx, mid + etx);
    lemma_run_one(init_state(), STX);
    assert(step(init_state(), STX) =~= collecting(none));
    lemma_run_append(collecting(none), mid, etx);
    lemma_encode_bytes_collect(none, x);
    assert(none + x =~= x);
    lemma_run_one(collecting(x), ETX);
    let s1 = step(collecting(x), ETX);
    assert(s1.done && s1.data == x);
    assert(run_frames(init_state(), encode_spec(x)) =~= seq![x]);
}

/// Noise rejection: bytes containing no `STX` complete no frame on a fresh
/// decoder and leave it fresh.
pub proof fn lemma_noise_rejection(bytes: Seq<u8>)
    requires
        forall|i: int| 0 <= i < bytes.len() ==> bytes[i] != STX,
    ensures
        run_frames(init_state(), bytes) == Seq::<Seq<u8>>::empty(),
        run_state(init_state(), bytes) == init_state(),
    decreases bytes.len(),
{
    if bytes.len() > 0 {
        assert(step(init_state(), bytes[0]) =~= init_state());
        assert forall|i: int| 0 <= i < bytes.drop_first().len() implies bytes.drop_first()[i]
            != STX by {
            assert(bytes.drop_first()[i] == bytes[i + 1]);
        }
        lemma_noise_rejection(bytes.drop_first());
    }
}

/// Chunked delivery: however the encoding of `x` is cut into two pieces,
/// feeding the pieces to a fresh decoder in two calls yields, across both
/// calls combined, exactly the one frame `x`.
pub proof fn lemma_chunked_delivery(x: Seq<u8>, a: Seq<u8>, b: Seq<u8>)
    requires
        a + b == encode_spec(x),
    ensures
        run_frames(init_state(), a) + run_frames(run_state(init_state(), a), b) == seq![x],
{
    lemma_run_append(init_state(), a, b);
    lemma_round_trip(x);
}

/// Multi-frame batch: the encodings of `a` and `b` delivered back to back
/// decode to exactly `[a, b]`, in that order.
pub proof fn lemma_multi_frame_batch(a: Seq<u8>, b: Seq<u8>)
    ensures
        run_frames(init_state(), encode_spec(a) + encode_spec(b)) == seq![a, b],
{
    lemma_run_append(init_state(), encode_spec(a), encode_spec(b));
    lemma_round_trip(a);
    lemma_round_trip(b);
    assert(seq![a] + seq![b] =~= seq![a, b]);
}

/// Incremental decoder for the escape framing; encoding is stateless and
/// lives in the `dataframer::Framer` impl.
#[derive(Clone)]
pub struct Framer {
    data: Vec<u8>,
    next_stuffed: bool,
    started: bool,
    done: bool,
}

impl View for Framer {
    type V = DecodeState;

    closed spec fn view(&self) -> DecodeState {
        DecodeState {
            data: self.data@,
            next_stuffed: self.next_stuffed,
            started: self.started,
            done: self.done,
        }
    }
}

impl Framer {
    /// A fresh decoder: no partial frame, outside any frame.
    pub fn new() -> (r: Self)
        ensures
            r@ == init_state(),
    {
        let r = Self { data: Vec::new(), next_stuffed: false, started: false, done: false };
        proof {
            assert(r@ =~= init_state());
        }
        r
    }

    /// Discard any partial frame and return to the fresh state.
    pub fn reset(&mut self)
        ensures
            final(self)@ == init_state(),
    {
        self.data.clear();
        self.next_stuffed = false;
        self.started = false;
        self.done = false;
        proof {
            assert(self@ =~= init_state());
        }
    }

    /// Consume one byte, advancing the decoder by exactly one `step`.
    fn add_byte(&mut self, byte: u8)
        ensures
            final(self)@ == step(old(self)@, byte),
    {
        match byte {
            STX => {
                self.reset();
                self.started = true;
            },
            ETX => {
                self.done = self.started;
            },
            ESC => {
                self.next_stuffed = self.started;
            },
            x => {
                if self.started {
                    if self.next_stuffed {
                        self.data.push(!x);
                    } else {
                        self.data.push(x);
                    }
                    self.next_stuffed = false;
                }
            },
        }
        proof {
            assert(self@ =~= step(old(self)@, byte));
        }
    }
}

impl dataframer::Framer for Framer {
    open spec fn ingest_state(pre: DecodeState, bytes: Seq<u8>) -> DecodeState {
        run_state(pre, bytes)
    }

    open spec fn ingest_frames(pre: DecodeState, bytes: Seq<u8>) -> Seq<Seq<u8>> {
        run_frames(pre, bytes)
    }

    open spec fn encode_spec(bytes: Seq<u8>) -> Seq<u8> {
        crate::serialframe::encode_spec(bytes)
    }

    fn add_slice(&mut self, bytes: &[u8]) -> (frames: Vec<Vec<u8>>) {
        let ghost s0 = self@;
        let mut retval: Vec<Vec<u8>> = Vec::new();
        let mut i: usize = 0;
        proof {
            assert(bytes@.skip(0) =~= bytes@);
            assert(retval.deep_view() =~= Seq::<Seq<u8>>::empty());
            assert(retval.deep_view() + run_frames(self@, bytes@) =~= run_frames(self@, bytes@));
        }
        while i < bytes.len()
            invariant
                i <= bytes.len(),
                run_state(s0, bytes@) == run_state(self@, bytes@.skip(i as int)),
                run_frames(s0, bytes@) == retval.deep_view() + run_frames(
                    self@,
                    bytes@.skip(i as int),
                ),
            decreases bytes.len() - i,
        {
            let ghost prev = self@;
            let ghost prev_frames = retval.deep_view();
            let ghost rest = bytes@.skip(i as int);
            proof {
                assert(rest[0] == bytes@[i as int]);
                assert(rest.drop_first() =~= bytes@.skip(i as int + 1));
            }
            self.add_byte(bytes[i]);
            if self.done {
                let mut frame: Vec<u8> = Vec::new();
                core::mem::swap(&mut frame, &mut self.data);
                retval.push(frame);
                self.reset();
                proof {
                    let s1 = step(prev, bytes@[i as int]);
                    assert(frame.deep_view() =~= s1.data);
                    assert(retval.deep_view() =~= prev_frames.push(s1.data));
                    assert(prev_frames + (seq![s1.data] + run_frames(
                        init_state(),
                        bytes@.skip(i as int + 1),
                    )) =~= prev_frames.push(s1.data) + run_frames(
                        init_state(),
                        bytes@.skip(i as int + 1),
                    ));
                }
            }
            i = i + 1;
        }
        proof {
            assert(bytes@.skip(bytes@.len() as int) =~= Seq::<u8>::empty());
            assert(retval.deep_view() + Seq::<Seq<u8>>::empty() =~= retval.deep_view());
        }
        retval
    }

    fn frame_data(bytes: &[u8]) -> (r: Vec<u8>) {
        let mut retval: Vec<u8> = Vec::new();
        retval.push(STX);
        let mut i: usize = 0;
        proof {
            assert(bytes@.skip(0) =~= bytes@);
            assert(retval@ =~= seq![STX]);
        }
        while i < bytes.len()
            invariant
                i <= bytes.len(),
                crate::serialframe::encode_spec(bytes@) == retval@ + encode_bytes(
                    bytes@.skip(i as int),
                ) + seq![ETX],
            decreases bytes.len() - i,
        {
            let ghost prev = retval@;
            let ghost rest = bytes@.skip(i as int);
            proof {
                assert(rest[0] == bytes@[i as int]);
                assert(rest.drop_first() =~= bytes@.skip(i as int + 1));
            }
            let b = bytes[i];
            if b == STX || b == ETX || b == ESC {
                retval.push(ESC);
                retval.push(!b);
            } else {
                retval.push(b);
            }
            proof {
                assert(retval@ =~= prev + encode_byte(bytes@[i as int]));
                assert((prev + encode_byte(bytes@[i as int])) + encode_bytes(
                    bytes@.skip(i as int + 1),
                ) =~= prev + (encode_byte(bytes@[i as int]) + encode_bytes(
                    bytes@.skip(i as int + 1),
                )));
            }
            i = i + 1;
        }
        let ghost body = retval@;
        proof {
            assert(bytes@.skip(bytes@.len() as int) =~= Seq::<u8>::empty());
            assert(body + encode_bytes(Seq::<u8>::empty()) + seq![ETX] =~= body + seq![ETX]);
        }
        retval.push(ETX);
        proof {
            assert(retval@ =~= body + seq![ETX]);
        }
        retval
    }
}

} // verus!


