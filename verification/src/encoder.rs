//! The streaming encoder and the one-call convenience encoder.

use vstd::prelude::*;

use crate::model::{encode_spec, end_out, fold_out, fold_state, step_out, step_state, wf_state};

verus! {

/// Byte sink used by [`Encoder`].
///
/// `bytes` is the sequence of bytes the sink has accepted so far; a successful
/// `write` appends exactly one byte to it. A sink whose `infallible` holds
/// never refuses a byte.
pub trait Write {
    type Error;

    /// The bytes this sink has accepted so far.
    spec fn bytes(&self) -> Seq<u8>;

    /// Whether this sink accepts every byte.
    spec fn infallible(&self) -> bool;

    /// Write a single byte.
    fn write(&mut self, byte: u8) -> (r: Result<(), Self::Error>)
        ensures
            final(self).infallible() == old(self).infallible(),
            r is Ok ==> final(self).bytes() == old(self).bytes().push(byte),
            old(self).infallible() ==> r is Ok,
    ;
}

/// Streaming encoder.
///
/// Feeds a message through the codec one byte at a time, holding only two
/// bytes of state. Call [`write`](Self::write) for each message byte, then
/// [`end`](Self::end). The same instance may encode several messages in turn;
/// the caller writes the `0x00` separator between them directly to the sink,
/// for example through [`writer`](Self::writer).
///
/// After a sink error the encoder's state is unspecified; start over with a
/// fresh encoder.
pub struct Encoder<W> {
    w: W,
    run: u8,
    zeros: u8,
}

impl<W> Encoder<W> {
    /// The sink this encoder writes to.
    pub closed spec fn sink(&self) -> W {
        self.w
    }

    /// Length of the currently open run.
    pub closed spec fn run_spec(&self) -> u8 {
        self.run
    }

    /// Bitmask of zero positions in the currently open short run.
    pub closed spec fn zeros_spec(&self) -> u8 {
        self.zeros
    }

    /// The encoder state is well formed.
    pub open spec fn wf(&self) -> bool {
        wf_state(self.run_spec(), self.zeros_spec())
    }

    /// Create a new encoder with the given writer.
    pub fn new(w: W) -> (r: Self)
        ensures
            r.run_spec() == 0u8,
            r.zeros_spec() == 0u8,
            r.wf(),
            r.sink() == w,
    {
        proof {
            lemma_wf_reset();
        }
        Self { w, run: 0, zeros: 0 }
    }

    /// Mutably borrow the inner writer.
    pub fn writer(&mut self) -> (w: &mut W)
        ensures
            *w == old(self).sink(),
            final(self).sink() == *final(w),
            final(self).run_spec() == old(self).run_spec(),
            final(self).zeros_spec() == old(self).zeros_spec(),
    {
        &mut self.w
    }

    fn into_writer(self) -> (w: W)
        ensures
            w == self.sink(),
    {
        self.w
    }
}

impl<W: Write> Encoder<W> {
    /// Write a message byte.
    ///
    /// On success the encoder advances by one step of the state machine and
    /// the sink receives exactly the bytes that step emits.
    pub fn write(&mut self, byte: u8) -> (r: Result<(), W::Error>)
        requires
            old(self).wf(),
        ensures
            final(self).sink().infallible() == old(self).sink().infallible(),
            old(self).sink().infallible() ==> r is Ok,
            r is Ok ==> {
                &&& final(self).wf()
                &&& (final(self).run_spec(), final(self).zeros_spec()) == step_state(
                    old(self).run_spec(),
                    old(self).zeros_spec(),
                    byte,
                )
                &&& final(self).sink().bytes() == old(self).sink().bytes() + step_out(
                    old(self).run_spec(),
                    old(self).zeros_spec(),
                    byte,
                )
            },
    {
        if self.run < 7 {
            if byte == 0 {
                self.zeros = self.zeros | (1u8 << self.run);
            } else {
                match self.w.write(byte) {
                    Ok(()) => {},
                    Err(e) => {
                        return Err(e);
                    },
                }
            }
            self.run = self.run + 1;
            if self.run == 7 && self.zeros != 0 {
                match self.w.write(self.zeros) {
                    Ok(()) => {},
                    Err(e) => {
                        return Err(e);
                    },
                }
                self.run = 0;
                self.zeros = 0;
            }
            proof {
                lemma_short_step_wf(old(self).run_spec(), old(self).zeros_spec());
                lemma_wf_reset();
            }
        } else if byte == 0 {
            match self.w.write((self.run - 7) | 0x80) {
                Ok(()) => {},
                Err(e) => {
                    return Err(e);
                },
            }
            self.run = 0;
            self.zeros = 0;
            proof {
                lemma_wf_reset();
            }
        } else {
            match self.w.write(byte) {
                Ok(()) => {},
                Err(e) => {
                    return Err(e);
                },
            }
            self.run = self.run + 1;
            if self.run == 134 {
                match self.w.write(0xFF) {
                    Ok(()) => {},
                    Err(e) => {
                        return Err(e);
                    },
                }
                self.run = 0;
                self.zeros = 0;
            }
            proof {
                lemma_wf_reset();
            }
        }
        Ok(())
    }

    /// Finish encoding a message.
    ///
    /// Flushes any open run and resets the state, so the encoder is ready for
    /// the next message. This does NOT write a `0x00` separator byte; write it
    /// yourself if you frame several messages.
    pub fn end(&mut self) -> (r: Result<(), W::Error>)
        requires
            old(self).wf(),
        ensures
            final(self).sink().infallible() == old(self).sink().infallible(),
            old(self).sink().infallible() ==> r is Ok,
            r is Ok ==> {
                &&& final(self).run_spec() == 0u8
                &&& final(self).zeros_spec() == 0u8
                &&& final(self).wf()
                &&& final(self).sink().bytes() == old(self).sink().bytes() + end_out(
                    old(self).run_spec(),
                    old(self).zeros_spec(),
                )
            },
    {
        if self.run == 0 {
        } else if self.run < 7 {
            match self.w.write((self.zeros | (0xFFu8 << self.run)) & 0x7F) {
                Ok(()) => {},
                Err(e) => {
                    return Err(e);
                },
            }
        } else {
            match self.w.write((self.run - 7) | 0x80) {
                Ok(()) => {},
                Err(e) => {
                    return Err(e);
                },
            }
        }
        self.run = 0;
        self.zeros = 0;
        proof {
            lemma_wf_reset();
        }
        Ok(())
    }
}

/// The reset state (0, 0) is well formed.
pub proof fn lemma_wf_reset()
    by (bit_vector)
    ensures
        0u8 >> 0u8 == 0u8,
{
}

/// The step of a short run keeps the state well formed.
proof fn lemma_short_step_wf(run: u8, zeros: u8)
    by (bit_vector)
    requires
        run < 7,
        zeros >> run == 0,
    ensures
        (zeros | (1u8 << run)) >> (run + 1) == 0,
        zeros >> (run + 1) == 0,
{
}

/// In-memory sink backing [`encode`].
struct VecWriter {
    buf: Vec<u8>,
}

impl Write for VecWriter {
    type Error = ();

    closed spec fn bytes(&self) -> Seq<u8> {
        self.buf@
    }

    closed spec fn infallible(&self) -> bool {
        true
    }

    fn write(&mut self, byte: u8) -> (r: Result<(), ()>) {
        self.buf.push(byte);
        Ok(())
    }
}

/// Encode a full message.
///
/// Encodes a single message and returns it as a `Vec`. The returned data does
/// not include any `0x00` separator byte; add it yourself when framing.
///
/// This is a convenience function using [`Encoder`] internally. For streaming
/// encoding, use [`Encoder`].
pub fn encode(data: &[u8]) -> (r: Vec<u8>)
    ensures
        r@ == encode_spec(data@),
{
    let mut enc = Encoder::new(VecWriter { buf: Vec::new() });
    let mut i: usize = 0;
    while i < data.len()
        invariant
            i <= data.len(),
            enc.wf(),
            enc.sink().infallible(),
            (enc.run_spec(), enc.zeros_spec()) == fold_state(0u8, 0u8, data@.take(i as int)),
            enc.sink().bytes() == fold_out(0u8, 0u8, data@.take(i as int)),
        decreases data.len() - i,
    {
        let ghost pre = data@.take(i as int);
        match enc.write(data[i]) {
            Ok(()) => {},
            Err(_) => {
                proof {
                    assert(false);
                }
            },
        }
        proof {
            let cur = data@.take(i + 1 as int);
            assert(cur.drop_last() =~= pre);
            assert(cur.last() == data@[i as int]);
        }
        i = i + 1;
    }
    proof {
        assert(data@.take(data@.len() as int) =~= data@);
    }
    match enc.end() {
        Ok(()) => {},
        Err(_) => {
            proof {
                assert(false);
            }
        },
    }
    let w = enc.into_writer();
    w.buf
}

} // verus!
