//! The byte-stream view of a message-framed WebSocket: frames append to
//! a bounded read buffer, reads take from its front in FIFO order, and
//! the Trojan parser's over-read bytes can be put back once so that they
//! are the first bytes forwarded upstream. The socket itself — awaiting
//! events, sending frames, closing — stays with the caller.

use vstd::prelude::*;

verus! {

/// One event of the inbound frame stream.
pub enum WsEvent {
    Binary(Vec<u8>),
    Text,
    Close,
    Error,
}

/// What the read loop does with one event.
pub enum WsStep {
    /// Append the frame's bytes to the read buffer.
    Append(Vec<u8>),
    /// A text frame on a byte tunnel: refuse the stream.
    ProtocolError,
    /// The peer closed: end of stream.
    Eof,
    /// The transport failed: surface an I/O error.
    IoError,
}

/// Classifies one frame event: binary frames carry data, text frames are
/// a protocol error, close is end-of-stream, errors fail the stream.
pub fn ws_event_step(ev: WsEvent) -> (r: WsStep)
    ensures
        match ev {
            WsEvent::Binary(b) => r is Append && r->Append_0@ == b@,
            WsEvent::Text => r is ProtocolError,
            WsEvent::Close => r is Eof,
            WsEvent::Error => r is IoError,
        },
{
    match ev {
        WsEvent::Binary(b) => WsStep::Append(b),
        WsEvent::Text => WsStep::ProtocolError,
        WsEvent::Close => WsStep::Eof,
        WsEvent::Error => WsStep::IoError,
    }
}

/// The WebSocket close code the tunnel sends: 1000 for a normal closure,
/// 1011 for an internal error or connection failure.
pub fn ws_close_code(success: bool) -> (r: u16)
    ensures
        r == if success {
            1000int
        } else {
            1011int
        },
{
    if success {
        1000
    } else {
        1011
    }
}

/// The bounded read buffer between frame arrival and byte reads.
pub struct WsBuffer {
    data: Vec<u8>,
    pos: usize,
    bufsize: usize,
}

impl WsBuffer {
    /// The bytes buffered and not yet read, oldest first.
    pub closed spec fn view(&self) -> Seq<u8> {
        self.data@.skip(self.pos as int)
    }

    /// The read position never passes the end of the backing store.
    pub closed spec fn wf(&self) -> bool {
        self.pos <= self.data@.len()
    }

    /// The configured read-buffer size.
    pub closed spec fn spec_bufsize(&self) -> usize {
        self.bufsize
    }

    /// An empty buffer for a stream read in chunks of at most `bufsize`.
    pub fn new(bufsize: usize) -> (r: WsBuffer)
        ensures
            r.wf(),
            r.view() == Seq::<u8>::empty(),
            r.spec_bufsize() == bufsize,
    {
        let r = WsBuffer { data: Vec::new(), pos: 0, bufsize };
        proof {
            assert(r.view() =~= Seq::<u8>::empty());
        }
        r
    }

    /// The configured read-buffer size.
    pub fn bufsize(&self) -> (r: usize)
        ensures
            r == self.spec_bufsize(),
    {
        self.bufsize
    }

    /// How many bytes wait to be read.
    pub fn available(&self) -> (r: usize)
        requires
            self.wf(),
        ensures
            r == self.view().len(),
    {
        self.data.len() - self.pos
    }

    /// Appends an arrived binary frame behind the buffered bytes.
    pub fn push_frame(&mut self, frame: &[u8])
        requires
            old(self).wf(),
        ensures
            final(self).wf(),
            final(self).view() == old(self).view() + frame@,
            final(self).spec_bufsize() == old(self).spec_bufsize(),
    {
        crate::text::append_bytes(&mut self.data, frame);
        proof {
            assert(final(self).view() =~= old(self).view() + frame@);
        }
    }

    /// Puts the parser's leftover bytes back, once, in front of
    /// everything read later; only an empty buffer accepts them.
    pub fn unread(&mut self, chunk: &[u8])
        requires
            old(self).wf(),
            old(self).view().len() == 0,
        ensures
            final(self).wf(),
            final(self).view() == chunk@,
            final(self).spec_bufsize() == old(self).spec_bufsize(),
    {
        self.data = Vec::new();
        self.pos = 0;
        crate::text::append_bytes(&mut self.data, chunk);
        proof {
            assert(final(self).view() =~= chunk@);
        }
    }

    /// Hands out up to `n` leading bytes and drops them from the buffer.
    pub fn read_into(&mut self, n: usize) -> (r: Vec<u8>)
        requires
            old(self).wf(),
        ensures
            final(self).wf(),
            r@ == old(self).view().take(min_len(n as int, old(self).view().len() as int)),
            final(self).view() == old(self).view().skip(
                min_len(n as int, old(self).view().len() as int),
            ),
            final(self).spec_bufsize() == old(self).spec_bufsize(),
    {
        let avail = self.data.len() - self.pos;
        let m = if n < avail {
            n
        } else {
            avail
        };
        let mut r: Vec<u8> = Vec::new();
        let mut k: usize = 0;
        while k < m
            invariant
                k <= m,
                *self == *old(self),
                old(self).wf(),
                m <= old(self).data@.len() - old(self).pos,
                r@ == old(self).data@.subrange(old(self).pos as int, old(self).pos + k),
            decreases m - k,
        {
            assert(self.pos + k < self.data.len());
            r.push(self.data[self.pos + k]);
            assert(r@ =~= old(self).data@.subrange(old(self).pos as int, old(self).pos + k + 1));
            k = k + 1;
        }
        self.pos = self.pos + m;
        proof {
            let mm = min_len(n as int, old(self).view().len() as int);
            assert(mm == m as int);
            assert(r@ =~= old(self).view().take(mm));
            assert(final(self).view() =~= old(self).view().skip(mm));
        }
        r
    }
}

/// The smaller of two lengths.
pub open spec fn min_len(a: int, b: int) -> int {
    if a < b {
        a
    } else {
        b
    }
}

} // verus!
