//! Decision core of the simplex relay.
//!
//! One relay pumps frames in one direction, from a framed source to a
//! framed destination. Its policy — every decoded frame is written exactly
//! once, in the order it decoded, and any transport failure ends the relay —
//! is a pure function from the relay's state and the last I/O outcome to
//! the next action. That function lives here, under contract; the caller
//! owns the actual reads and writes, performs each action, and hands the
//! outcome back as the next event.

use vstd::prelude::*;

verus! {

/// The outcome of the last I/O action, reported back to the relay.
pub enum RelayEvent {
    /// A read succeeded and decoding completed these frames (possibly none).
    Read(Vec<Vec<u8>>),
    /// The source failed (stream closed or read error).
    ReadFailed,
    /// The last frame handed out was written in full.
    Wrote,
    /// The destination failed to take the frame.
    WriteFailed,
}

/// What the relay asks its caller to do next.
pub enum RelayAction {
    /// Write this frame to the framed destination.
    Write(Vec<u8>),
    /// Read the framed source once more.
    Read,
    /// The relay has ended; this direction is finished.
    Stop,
}

/// The relay's state: the frames decoded but not yet written, oldest first
/// (that order is the view).
pub struct Relay {
    pending: Vec<Vec<u8>>,
}

impl View for Relay {
    type V = Seq<Seq<u8>>;

    closed spec fn view(&self) -> Seq<Seq<u8>> {
        self.pending.deep_view()
    }
}

impl Relay {
    /// A fresh relay: nothing decoded, nothing owed to the destination.
    pub fn new() -> (r: Relay)
        ensures
            r@ == Seq::<Seq<u8>>::empty(),
    {
        let r = Relay { pending: Vec::new() };
        proof {
            assert(r@ =~= Seq::<Seq<u8>>::empty());
        }
        r
    }

    /// Hand out the oldest pending frame, or ask for another read when
    /// nothing is pending.
    fn pop_front_or_read(&mut self) -> (a: RelayAction)
        ensures
            old(self)@.len() > 0 ==> (a matches RelayAction::Write(f) && f@ == old(self)@[0]
                && final(self)@ == old(self)@.drop_first()),
            old(self)@.len() == 0 ==> a == RelayAction::Read && final(self)@ == old(self)@,
    {
        if self.pending.len() > 0 {
            let frame = self.pending.remove(0);
            proof {
                assert(frame.deep_view() =~= frame@);
                assert(self.pending.deep_view() =~= old(self)@.drop_first());
            }
            RelayAction::Write(frame)
        } else {
            RelayAction::Read
        }
    }

    /// The next action after `event`. Frames leave in the order they were
    /// decoded, each exactly once; any transport failure — a failed read or
    /// a failed write alike — stops the relay, and a stopped relay owes the
    /// destination nothing.
    pub fn step(&mut self, event: RelayEvent) -> (a: RelayAction)
        ensures
            (match event {
                RelayEvent::Read(frames) => ({
                    let q = old(self)@ + frames.deep_view();
                    if q.len() > 0 {
                        (a matches RelayAction::Write(f) && f@ == q[0]) && final(self)@
                            == q.drop_first()
                    } else {
                        a == RelayAction::Read && final(self)@ == q
                    }
                }),
                RelayEvent::Wrote => ({
                    let q = old(self)@;
                    if q.len() > 0 {
                        (a matches RelayAction::Write(f) && f@ == q[0]) && final(self)@
                            == q.drop_first()
                    } else {
                        a == RelayAction::Read && final(self)@ == q
                    }
                }),
                RelayEvent::ReadFailed => a == RelayAction::Stop && final(self)@ == Seq::<
                    Seq<u8>,
                >::empty(),
                RelayEvent::WriteFailed => a == RelayAction::Stop && final(self)@ == Seq::<
                    Seq<u8>,
                >::empty(),
            }),
    {
        match event {
            RelayEvent::Read(mut frames) => {
                let ghost q0 = self@;
                let ghost fdv = frames.deep_view();
                self.pending.append(&mut frames);
                proof {
                    assert(self.pending.deep_view() =~= q0 + fdv);
                }
                self.pop_front_or_read()
            },
            RelayEvent::Wrote => self.pop_front_or_read(),
            RelayEvent::ReadFailed => {
                self.pending.clear();
                proof {
                    assert(self.pending.deep_view() =~= Seq::<Seq<u8>>::empty());
                }
                RelayAction::Stop
            },
            RelayEvent::WriteFailed => {
                self.pending.clear();
                proof {
                    assert(self.pending.deep_view() =~= Seq::<Seq<u8>>::empty());
                }
                RelayAction::Stop
            },
        }
    }
}

} // verus!
