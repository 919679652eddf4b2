//! The framing capability: incremental decode and stateless encode.

use vstd::prelude::*;

verus! {

/// A framing strategy over a byte stream.
///
/// Decoding is incremental: `add_slice` consumes raw bytes, updates the
/// decoder state and returns every frame completed by those bytes, in the
/// order they completed. Encoding is stateless: `frame_data` is a pure
/// function from one frame to its wire bytes.
///
/// Each implementation fixes its behaviour through three spec functions:
/// `ingest_state` and `ingest_frames` describe what one `add_slice` call
/// does to the decoder state (as seen through its view) and which frames it
/// emits, and `encode_spec` gives the exact wire bytes of one frame.
pub trait Framer: View + Clone + Sized {
    /// The decoder state, as seen through the view, after consuming `bytes`
    /// starting from state `pre`.
    spec fn ingest_state(pre: Self::V, bytes: Seq<u8>) -> Self::V;

    /// The frames completed by consuming `bytes` starting from state `pre`,
    /// in the order they completed.
    spec fn ingest_frames(pre: Self::V, bytes: Seq<u8>) -> Seq<Seq<u8>>;

    /// The wire bytes produced by encoding the frame `bytes`.
    spec fn encode_spec(bytes: Seq<u8>) -> Seq<u8>;

    /// Consume `bytes`, returning every frame they completed.
    fn add_slice(&mut self, bytes: &[u8]) -> (frames: Vec<Vec<u8>>)
        ensures
            final(self)@ == Self::ingest_state(old(self)@, bytes@),
            frames.deep_view() == Self::ingest_frames(old(self)@, bytes@),
    ;

    /// Encode one frame into its wire representation.
    fn frame_data(bytes: &[u8]) -> (r: Vec<u8>)
        ensures
            r@ == Self::encode_spec(bytes@),
    ;
}

/// The passthrough framer: every chunk of bytes handed to `add_slice` is one
/// frame, and `frame_data` returns its input unchanged.
#[derive(Clone, Copy)]
pub struct Identity {}

impl View for Identity {
    type V = ();

    open spec fn view(&self) -> () {
        ()
    }
}

impl Framer for Identity {
    open spec fn ingest_state(pre: (), bytes: Seq<u8>) -> () {
        ()
    }

    open spec fn ingest_frames(pre: (), bytes: Seq<u8>) -> Seq<Seq<u8>> {
        seq![bytes]
    }

    open spec fn encode_spec(bytes: Seq<u8>) -> Seq<u8> {
        bytes
    }

    fn add_slice(&mut self, bytes: &[u8]) -> (frames: Vec<Vec<u8>>) {
        let mut copy: Vec<u8> = Vec::new();
        let mut i: usize = 0;
        while i < bytes.len()
            invariant
                i <= bytes.len(),
                copy@ == bytes@.take(i as int),
            decreases bytes.len() - i,
        {
            copy.push(bytes[i]);
            proof {
                assert(bytes@.take(i + 1 as int) =~= bytes@.take(i as int).push(bytes@[i as int]));
            }
            i = i + 1;
        }
        let mut frames: Vec<Vec<u8>> = Vec::new();
        proof {
            assert(copy@ =~= bytes@);
        }
        frames.push(copy);
        proof {
            assert(frames.deep_view() =~~= seq![bytes@]);
        }
        frames
    }

    fn frame_data(bytes: &[u8]) -> (r: Vec<u8>) {
        let mut copy: Vec<u8> = Vec::new();
        let mut i: usize = 0;
        while i < bytes.len()
            invariant
                i <= bytes.len(),
                copy@ == bytes@.take(i as int),
            decreases bytes.len() - i,
        {
            copy.push(bytes[i]);
            proof {
                assert(bytes@.take(i + 1 as int) =~= bytes@.take(i as int).push(bytes@[i as int]));
            }
            i = i + 1;
        }
        proof {
            assert(copy@ =~= bytes@);
        }
        copy
    }
}

} // verus!
