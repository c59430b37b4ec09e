//! Byte-stream resynchronisation: finds frame boundaries in a continuous
//! serial stream. A start marker resets the write cursor, discarding any
//! partial frame; every other byte is accumulated, and a complete group of
//! `RX_BUF_LEN` bytes is handed out for decoding.

use vstd::prelude::*;

use crate::RX_BUF_LEN;
use crate::SOF;

verus! {

/// The receiver's state as a mathematical value: the accumulated bytes so
/// far in this frame (fewer than `RX_BUF_LEN` of them).
pub struct RxState {
    pub partial: Seq<u8>,
}

impl RxState {
    pub open spec fn wf(&self) -> bool {
        self.partial.len() < RX_BUF_LEN
    }
}

/// One incoming byte: a marker resets the cursor; any other byte is
/// appended, and the group is delivered once it is complete.
pub open spec fn spec_rx_step(st: RxState, b: u8) -> (RxState, Option<Seq<u8>>) {
    if b == SOF {
        (RxState { partial: Seq::empty() }, None)
    } else if st.partial.len() + 1 == RX_BUF_LEN {
        (RxState { partial: Seq::empty() }, Some(st.partial.push(b)))
    } else {
        (RxState { partial: st.partial.push(b) }, None)
    }
}

/// A whole chunk of incoming bytes, first byte first: the final state and
/// every complete group delivered along the way, in order.
pub open spec fn spec_rx_feed(st: RxState, bytes: Seq<u8>) -> (RxState, Seq<Seq<u8>>)
    decreases bytes.len(),
{
    if bytes.len() == 0 {
        (st, Seq::empty())
    } else {
        let (st1, out1) = spec_rx_step(st, bytes[0]);
        let (st2, rest) = spec_rx_feed(st1, bytes.drop_first());
        match out1 {
            Some(frame) => (st2, seq![frame] + rest),
            None => (st2, rest),
        }
    }
}

/// The link receiver: a fixed-capacity rolling buffer and a write cursor.
pub struct LinkReceiver {
    buf: Vec<u8>,
    pos: usize,
}

impl LinkReceiver {
    /// The buffer always holds one frame group's worth of slots and the
    /// cursor stays inside it.
    pub closed spec fn wf(&self) -> bool {
        self.buf@.len() == RX_BUF_LEN && self.pos < RX_BUF_LEN
    }

    /// The bytes accumulated so far for the current frame.
    pub closed spec fn state(&self) -> RxState {
        RxState { partial: self.buf@.take(self.pos as int) }
    }

    /// An empty receiver, waiting for its first frame.
    pub fn new() -> (rx: LinkReceiver)
        ensures
            rx.wf(),
            rx.state().partial == Seq::<u8>::empty(),
    {
        let mut buf: Vec<u8> = Vec::new();
        let mut i: usize = 0;
        while i < RX_BUF_LEN
            invariant
                i <= RX_BUF_LEN,
                buf@.len() == i,
            decreases RX_BUF_LEN - i,
        {
            buf.push(0);
            i = i + 1;
        }
        let rx = LinkReceiver { buf, pos: 0 };
        proof {
            assert(rx.buf@.take(0) =~= Seq::<u8>::empty());
        }
        rx
    }

    /// Consumes one received byte; returns a complete payload-plus-checksum
    /// group when this byte finishes one.
    pub fn push_byte(&mut self, b: u8) -> (frame: Option<Vec<u8>>)
        requires
            old(self).wf(),
        ensures
            final(self).wf(),
            final(self).state() == spec_rx_step(old(self).state(), b).0,
            match frame {
                Some(f) => spec_rx_step(old(self).state(), b).1 == Some(f@),
                None => spec_rx_step(old(self).state(), b).1 is None,
            },
    {
        if b == SOF {
            self.pos = 0;
            proof {
                assert(self.buf@.take(0) =~= Seq::<u8>::empty());
            }
            return None;
        }
        let ghost before = self.buf@.take(self.pos as int);
        self.buf.set(self.pos, b);
        proof {
            assert(self.buf@.take(self.pos as int) =~= before);
            assert(self.buf@.take(self.pos + 1 as int) =~= before.push(b));
        }
        self.pos = self.pos + 1;
        if self.pos == RX_BUF_LEN {
            self.pos = 0;
            let mut out: Vec<u8> = Vec::new();
            let mut i: usize = 0;
            while i < RX_BUF_LEN
                invariant
                    self.wf_inner(),
                    i <= RX_BUF_LEN,
                    out@.len() == i,
                    forall|j: int| 0 <= j < i ==> out@[j] == self.buf@[j],
                decreases RX_BUF_LEN - i,
            {
                let byte = self.buf[i];
                out.push(byte);
                i = i + 1;
            }
            proof {
                assert(out@ =~= self.buf@);
                assert(self.buf@ =~= before.push(b));
                assert(self.buf@.take(0) =~= Seq::<u8>::empty());
            }
            Some(out)
        } else {
            None
        }
    }

    /// The buffer-shape half of `wf`, for loop invariants.
    closed spec fn wf_inner(&self) -> bool {
        self.buf@.len() == RX_BUF_LEN
    }

    /// Consumes a chunk of received bytes, first byte first, and returns
    /// every complete group they finish, in order.
    pub fn push_bytes(&mut self, bytes: &Vec<u8>) -> (frames: Vec<Vec<u8>>)
        requires
            old(self).wf(),
        ensures
            final(self).wf(),
            final(self).state() == spec_rx_feed(old(self).state(), bytes@).0,
            frames@.len() == spec_rx_feed(old(self).state(), bytes@).1.len(),
            forall|j: int|
                0 <= j < frames@.len() ==> #[trigger] frames@[j]@ == spec_rx_feed(
                    old(self).state(),
                    bytes@,
                ).1[j],
    {
        let mut frames: Vec<Vec<u8>> = Vec::new();
        let mut i: usize = 0;
        proof {
            assert(bytes@.skip(0) =~= bytes@);
            assert(frames@.map_values(|f: Vec<u8>| f@) + spec_rx_feed(self.state(), bytes@).1
                =~= spec_rx_feed(self.state(), bytes@).1);
        }
        while i < bytes.len()
            invariant
                self.wf(),
                i <= bytes@.len(),
                spec_rx_feed(old(self).state(), bytes@).0 == spec_rx_feed(
                    self.state(),
                    bytes@.skip(i as int),
                ).0,
                spec_rx_feed(old(self).state(), bytes@).1 =~= frames@.map_values(|f: Vec<u8>| f@)
                    + spec_rx_feed(self.state(), bytes@.skip(i as int)).1,
            decreases bytes@.len() - i,
        {
            let ghost pre = self.state();
            let ghost rest = bytes@.skip(i as int);
            let frame = self.push_byte(bytes[i]);
            proof {
                assert(rest[0] == bytes@[i as int]);
                assert(rest.drop_first() =~= bytes@.skip(i + 1 as int));
            }
            match frame {
                Some(f) => {
                    frames.push(f);
                },
                None => {},
            }
            proof {
                assert(spec_rx_feed(old(self).state(), bytes@).1 =~= frames@.map_values(
                    |f: Vec<u8>| f@,
                ) + spec_rx_feed(self.state(), bytes@.skip(i + 1 as int)).1);
            }
            i = i + 1;
        }
        proof {
            assert(bytes@.skip(bytes@.len() as int) =~= Seq::<u8>::empty());
        }
        frames
    }
}

/// Resynchronisation: a start marker begins a new frame at that position,
/// whatever partial state came before.
pub proof fn lemma_marker_resyncs(st: RxState, b: u8)
    requires
        b == SOF,
    ensures
        spec_rx_step(st, b).0.partial == Seq::<u8>::empty(),
        spec_rx_step(st, b).1 is None,
{
}

/// After a marker, the next `RX_BUF_LEN` marker-free bytes come out as
/// exactly one complete group, whatever state came before the marker.
pub proof fn lemma_resync_delivers(st: RxState, bytes: Seq<u8>)
    requires
        st.wf(),
        bytes.len() == RX_BUF_LEN,
        forall|j: int| 0 <= j < bytes.len() ==> bytes[j] != SOF,
    ensures
        spec_rx_feed(st, seq![SOF] + bytes).1 =~= seq![bytes],
{
    let empty = RxState { partial: Seq::<u8>::empty() };
    assert((seq![SOF] + bytes)[0] == SOF);
    assert((seq![SOF] + bytes).drop_first() =~= bytes);
    lemma_empty_fill(empty, bytes);
}

/// Helper: from an empty partial state, `RX_BUF_LEN` marker-free bytes
/// yield exactly that group.
proof fn lemma_empty_fill(st: RxState, bytes: Seq<u8>)
    requires
        1 <= bytes.len(),
        st.partial.len() + bytes.len() == RX_BUF_LEN,
        forall|j: int| 0 <= j < bytes.len() ==> bytes[j] != SOF,
    ensures
        spec_rx_feed(st, bytes).1 =~= seq![st.partial + bytes],
    decreases bytes.len(),
{
    if bytes.len() == 1 {
        assert(spec_rx_step(st, bytes[0]).1 == Some(st.partial.push(bytes[0])));
        assert(st.partial.push(bytes[0]) =~= st.partial + bytes);
        assert(spec_rx_feed(spec_rx_step(st, bytes[0]).0, bytes.drop_first()).1 =~= Seq::<
            Seq<u8>,
        >::empty());
    } else {
        let st1 = spec_rx_step(st, bytes[0]).0;
        assert(st1.partial == st.partial.push(bytes[0]));
        lemma_empty_fill(st1, bytes.drop_first());
        assert(st.partial.push(bytes[0]) + bytes.drop_first() =~= st.partial + bytes);
    }
}

} // verus!
