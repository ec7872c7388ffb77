//! Traffic-shape embedding: data is sent in packets whose lengths and
//! directions follow a recorded connection. Each packet long enough holds a
//! 4-byte big-endian data length, the data, and zero padding up to the
//! recorded length; shorter packets are all padding.

use vstd::prelude::*;
use crate::buf::{bytes_of, buf_from_slice, buf_len, buf_advance};
use crate::grpc::be32;
use crate::recorder::ProxyBehavior;
use bytes::BytesMut;

verus! {

/// The direction mark of a packet the recorded side wrote.
pub const WRITE_DIRECTION: i8 = 1;
/// The direction mark of a packet the recorded side read.
pub const READ_DIRECTION: i8 = -1;

/// One packet of the recorded connection: its direction and length.
#[derive(Debug, Clone, Copy)]
pub struct PayloadInfo {
    pub direction: i8,
    pub length: usize,
}

/// Whether a packet in `direction` is this end's to write: the decoding
/// end writes what the recorded side wrote, the encoding end what it read.
pub open spec fn direction_match_write_spec(behavior: ProxyBehavior, direction: i8) -> bool {
    (behavior == ProxyBehavior::DECODE && direction == WRITE_DIRECTION)
        || (behavior == ProxyBehavior::ENCODE && direction == READ_DIRECTION)
}

/// Whether a packet in `direction` is this end's to write. A direction
/// other than 1 or -1 is a broken recording, which `requires` rules out.
pub fn direction_match_write(behavior: ProxyBehavior, direction: i8) -> (r: bool)
    requires
        direction == 1 || direction == -1,
    ensures
        r == direction_match_write_spec(behavior, direction),
{
    match behavior {
        ProxyBehavior::DECODE => direction == WRITE_DIRECTION,
        ProxyBehavior::ENCODE => direction == READ_DIRECTION,
        ProxyBehavior::UNSPECIFIED => false,
    }
}

/// The packet index after `idx` in a recording of `len` packets; after
/// the last comes the first again.
pub open spec fn next_index(idx: nat, len: nat) -> nat {
    if idx + 1 == len { 0 } else { idx + 1 }
}

/// The packet index after `idx`, going round the recording.
pub fn advance_packet_index(idx: usize, len: usize) -> (r: usize)
    requires
        idx < len,
    ensures
        r == next_index(idx as nat, len as nat),
        r < len,
{
    if idx + 1 == len { 0 } else { idx + 1 }
}

/// `n` zero bytes.
pub open spec fn zeros(n: nat) -> Seq<u8> {
    Seq::new(n, |i: int| 0u8)
}

/// How many bytes of `data_len` a packet of `length` carries.
pub open spec fn carried(length: nat, data_len: nat) -> nat {
    if length < 4 {
        0
    } else if length - 4 < data_len {
        (length - 4) as nat
    } else {
        data_len
    }
}

/// The packet of `length` bytes that carries the front of `data`: all
/// zeros when shorter than 4 bytes, else the carried length, the carried
/// bytes and zero padding.
pub open spec fn framed(length: nat, data: Seq<u8>) -> Seq<u8> {
    if length < 4 {
        zeros(length)
    } else {
        let n = carried(length, data.len());
        be32(n) + data.take(n as int) + zeros((length - 4 - n) as nat)
    }
}

/// The data that a whole packet carries: the bytes after the 4-byte length,
/// as many as it names and the packet holds.
pub open spec fn unframed(p: Seq<u8>) -> Seq<u8> {
    let n = (p[0] as nat) * 0x1000000 + (p[1] as nat) * 0x10000 + (p[2] as nat) * 0x100 + (p[3] as nat);
    if n + 4 > p.len() { p.skip(4) } else { p.subrange(4, 4 + n as int) }
}

/// The packet of `length` bytes that carries the front of `data`, and how
/// many bytes of `data` it carries.
pub fn frame_packet(length: usize, data: &[u8]) -> (r: (BytesMut, usize))
    requires
        length <= u32::MAX,
    ensures
        r.1 == carried(length as nat, data@.len()),
        bytes_of(r.0) == framed(length as nat, data@),
{
    let mut v: Vec<u8> = Vec::new();
    if length < 4 {
        let mut i: usize = 0;
        while i < length
            invariant
                i <= length,
                v@ == zeros(i as nat),
            decreases length - i,
        {
            v.push(0);
            i = i + 1;
            assert(v@ =~= zeros(i as nat));
        }
        return (buf_from_slice(v.as_slice()), 0);
    }
    let allowed = length - 4;
    let n = if allowed < data.len() { allowed } else { data.len() };
    v.push(((n / 0x1000000) % 256) as u8);
    v.push(((n / 0x10000) % 256) as u8);
    v.push(((n / 0x100) % 256) as u8);
    v.push((n % 256) as u8);
    proof {
        assert(v@ =~= be32(n as nat));
    }
    let mut i: usize = 0;
    while i < n
        invariant
            i <= n,
            n <= data@.len(),
            v@ == be32(n as nat) + data@.take(i as int),
        decreases n - i,
    {
        v.push(data[i]);
        i = i + 1;
        assert(v@ =~= be32(n as nat) + data@.take(i as int));
    }
    let pad = allowed - n;
    let mut j: usize = 0;
    while j < pad
        invariant
            j <= pad,
            n <= data@.len(),
            v@ == be32(n as nat) + data@.take(n as int) + zeros(j as nat),
        decreases pad - j,
    {
        v.push(0);
        j = j + 1;
        assert(v@ =~= be32(n as nat) + data@.take(n as int) + zeros(j as nat));
    }
    (buf_from_slice(v.as_slice()), n)
}

/// A whole packet gives back the data it was made to carry.
pub proof fn lemma_frame_unframe(length: nat, data: Seq<u8>)
    requires
        4 <= length <= u32::MAX,
    ensures
        unframed(framed(length, data)) == data.take(carried(length, data.len()) as int),
{
    let n = carried(length, data.len());
    let p = framed(length, data);
    assert(n <= u32::MAX);
    assert(p[0] == ((n / 0x1000000) % 256) as u8);
    assert(p[1] == ((n / 0x10000) % 256) as u8);
    assert(p[2] == ((n / 0x100) % 256) as u8);
    assert(p[3] == (n % 256) as u8);
    assert(((n / 0x1000000) % 256) * 0x1000000 + ((n / 0x10000) % 256) * 0x10000
        + ((n / 0x100) % 256) * 0x100 + n % 256 == n) by (nonlinear_arith)
        requires n <= u32::MAX;
    assert(p.subrange(4, 4 + n as int) =~= data.take(n as int));
}

/// The write under way, beside the plain one: the first data of the
/// connection still to be sent, or the rest of a packet.
pub enum EmbedWriteState {
    /// Data handed over at the start, still to be sent first.
    FirstBufToWrite(BytesMut),
    /// A packet is partly written: the data length to report when it is
    /// done, and whether it carries first data.
    WriteRemainBuf(usize, bool),
}

/// What the bytes handed to the stream are.
#[derive(Debug, Clone, Copy, PartialEq, Eq)]
pub enum WriteOp {
    /// A whole packet of padding, of this length.
    Padding(usize),
    /// A whole packet of this length, carrying this many data bytes, of
    /// first data or not.
    Packet(usize, usize, bool),
    /// The rest of a packet.
    Remain(usize, bool),
}

/// What the caller does next.
pub enum EmbedWriteChoice {
    /// It is not this end's turn to write: wait.
    Wait,
    /// Write the bytes in `out`; they are what the op says.
    Write(WriteOp),
}

/// What a write leads to.
#[derive(Debug, Clone, Copy, PartialEq, Eq)]
pub enum EmbedWriteResult {
    /// Go on with the next write.
    Continue,
    /// Report this many bytes of the caller's data taken.
    Done(usize),
    /// The stream failed.
    Failed,
    /// The stream wrote part of a padding packet.
    ShortPadding,
}

/// The writing side of an embedding connection.
pub struct EmbedWriter {
    /// The recorded packets.
    pub file: Vec<PayloadInfo>,
    pub behavior: ProxyBehavior,
    /// The packet whose turn it is.
    pub index: usize,
    pub write_state: Option<EmbedWriteState>,
    /// The bytes to hand to the stream.
    pub out: BytesMut,
}

impl EmbedWriter {
    /// The packet index is within the recording, the recording is not
    /// empty, every packet has a direction and a 32-bit length.
    pub open spec fn well_formed(&self) -> bool {
        &&& self.file@.len() > 0
        &&& self.index < self.file@.len()
        &&& forall|i: int| 0 <= i < self.file@.len() ==> {
            &&& ((#[trigger] self.file@[i]).direction == 1 || self.file@[i].direction == -1)
            &&& self.file@[i].length <= u32::MAX
        }
    }

    /// The packet whose turn it is.
    pub open spec fn current(&self) -> PayloadInfo {
        self.file@[self.index as int]
    }

    /// A writer at the first packet; `first` is data to send before any other.
    pub fn new(file: Vec<PayloadInfo>, behavior: ProxyBehavior, first: Option<BytesMut>) -> (w: EmbedWriter)
        ensures
            w.file == file,
            w.behavior == behavior,
            w.index == 0,
            first matches Some(b) ==> (bytes_of(b).len() > 0 ==> (w.write_state matches Some(EmbedWriteState::FirstBufToWrite(x)) && x == b)),
            (first is None || bytes_of(first->0).len() == 0) ==> w.write_state is None,
    {
        let write_state = match first {
            Some(b) => if buf_len(&b) > 0 { Some(EmbedWriteState::FirstBufToWrite(b)) } else { None },
            None => None,
        };
        EmbedWriter { file, behavior, index: 0, write_state, out: crate::buf::buf_new() }
    }

    /// Decides the next write for the caller's data `buf`: none when it is
    /// not this end's turn; else `out` is filled with the packet for the
    /// current recorded length (carrying the front of the first data when
    /// some is left, else of `buf`), or with the rest of a partly written
    /// packet.
    pub fn next_write(&mut self, buf: &[u8]) -> (c: EmbedWriteChoice)
        requires
            old(self).well_formed(),
        ensures
            final(self).well_formed(),
            final(self).file == old(self).file,
            final(self).behavior == old(self).behavior,
            final(self).index == old(self).index,
            final(self).write_state == old(self).write_state,
            !direction_match_write_spec(old(self).behavior, old(self).current().direction) ==> (c is Wait
                && final(self).out == old(self).out),
            direction_match_write_spec(old(self).behavior, old(self).current().direction) ==> match old(self).write_state {
                None => c == EmbedWriteChoice::Write(
                    if old(self).current().length < 4 {
                        WriteOp::Padding(old(self).current().length)
                    } else {
                        WriteOp::Packet(old(self).current().length,
                            carried(old(self).current().length as nat, buf@.len()) as usize, false)
                    })
                    && bytes_of(final(self).out) == framed(old(self).current().length as nat, buf@),
                Some(EmbedWriteState::FirstBufToWrite(f)) => c == EmbedWriteChoice::Write(
                    if old(self).current().length < 4 {
                        WriteOp::Padding(old(self).current().length)
                    } else {
                        WriteOp::Packet(old(self).current().length,
                            carried(old(self).current().length as nat, bytes_of(f).len()) as usize, true)
                    })
                    && bytes_of(final(self).out) == framed(old(self).current().length as nat, bytes_of(f)),
                Some(EmbedWriteState::WriteRemainBuf(l, first)) => c == EmbedWriteChoice::Write(WriteOp::Remain(l, first))
                    && final(self).out == old(self).out,
            },
    {
        let cur = self.file[self.index];
        if !direction_match_write(self.behavior, cur.direction) {
            return EmbedWriteChoice::Wait;
        }
        match &self.write_state {
            None => {
                let (packet, n) = frame_packet(cur.length, buf);
                self.out = packet;
                if cur.length < 4 {
                    EmbedWriteChoice::Write(WriteOp::Padding(cur.length))
                } else {
                    EmbedWriteChoice::Write(WriteOp::Packet(cur.length, n, false))
                }
            },
            Some(EmbedWriteState::FirstBufToWrite(first)) => {
                let data = crate::buf::buf_to_vec(first);
                let (packet, n) = frame_packet(cur.length, data.as_slice());
                self.out = packet;
                if cur.length < 4 {
                    EmbedWriteChoice::Write(WriteOp::Padding(cur.length))
                } else {
                    EmbedWriteChoice::Write(WriteOp::Packet(cur.length, n, true))
                }
            },
            Some(EmbedWriteState::WriteRemainBuf(l, first)) => {
                EmbedWriteChoice::Write(WriteOp::Remain(*l, *first))
            },
        }
    }

    /// The stream took `written` bytes of `out` (or failed, `None`) for a
    /// write that `op` described. A whole packet moves the turn to the next
    /// recorded packet; a packet written in part leaves its rest in `out`
    /// (first data is framed anew instead); first data that has been sent
    /// in full is done with.
    pub fn on_written(&mut self, op: WriteOp, written: Option<usize>) -> (r: EmbedWriteResult)
        requires
            old(self).well_formed(),
            written matches Some(u) ==> u <= bytes_of(old(self).out).len(),
            op matches WriteOp::Packet(length, n, first) ==> (bytes_of(old(self).out).len() == length && n <= length
                && (first ==> (old(self).write_state matches Some(EmbedWriteState::FirstBufToWrite(f)) && n <= bytes_of(f).len()))),
        ensures
            final(self).well_formed(),
            final(self).file == old(self).file,
            final(self).behavior == old(self).behavior,
            written is None ==> (r == EmbedWriteResult::Failed && final(self).index == old(self).index
                && final(self).write_state == old(self).write_state),
            written matches Some(u) ==> match op {
                WriteOp::Padding(length) => if u == length {
                    r == EmbedWriteResult::Continue
                        && final(self).index == next_index(old(self).index as nat, old(self).file@.len())
                        && final(self).write_state == old(self).write_state
                } else {
                    r == EmbedWriteResult::ShortPadding && final(self).index == old(self).index
                        && final(self).write_state == old(self).write_state
                },
                WriteOp::Packet(length, n, first) => if u == length {
                    final(self).index == next_index(old(self).index as nat, old(self).file@.len()) && if first {
                        r == EmbedWriteResult::Continue && match old(self).write_state {
                            Some(EmbedWriteState::FirstBufToWrite(f)) => if n < bytes_of(f).len() {
                                final(self).write_state matches Some(EmbedWriteState::FirstBufToWrite(g))
                                    && bytes_of(g) == bytes_of(f).skip(n as int)
                            } else {
                                final(self).write_state is None
                            },
                            _ => false,
                        }
                    } else {
                        r == EmbedWriteResult::Done(n) && final(self).write_state == old(self).write_state
                    }
                } else {
                    r == EmbedWriteResult::Continue && final(self).index == old(self).index && if first {
                        final(self).write_state == old(self).write_state
                    } else {
                        final(self).write_state == Some(EmbedWriteState::WriteRemainBuf(n, false))
                            && bytes_of(final(self).out) == bytes_of(old(self).out).skip(u as int)
                    }
                },
                WriteOp::Remain(l, first) => if u == bytes_of(old(self).out).len() {
                    final(self).index == next_index(old(self).index as nat, old(self).file@.len())
                        && final(self).write_state is None
                        && r == (if first { EmbedWriteResult::Continue } else { EmbedWriteResult::Done(l) })
                } else {
                    r == EmbedWriteResult::Continue && final(self).index == old(self).index
                        && final(self).write_state == old(self).write_state
                        && bytes_of(final(self).out) == bytes_of(old(self).out).skip(u as int)
                },
            },
    {
        let u = match written {
            None => {
                return EmbedWriteResult::Failed;
            },
            Some(u) => u,
        };
        let len = self.file.len();
        match op {
            WriteOp::Padding(length) => {
                if u == length {
                    self.index = advance_packet_index(self.index, len);
                    EmbedWriteResult::Continue
                } else {
                    EmbedWriteResult::ShortPadding
                }
            },
            WriteOp::Packet(length, n, first) => {
                if u == length {
                    self.index = advance_packet_index(self.index, len);
                    if first {
                        let st = self.write_state.take();
                        match st {
                            Some(EmbedWriteState::FirstBufToWrite(mut f)) => {
                                if n < buf_len(&f) {
                                    buf_advance(&mut f, n);
                                    self.write_state = Some(EmbedWriteState::FirstBufToWrite(f));
                                } else {
                                    self.write_state = None;
                                }
                            },
                            other => {
                                self.write_state = other;
                            },
                        }
                        EmbedWriteResult::Continue
                    } else {
                        EmbedWriteResult::Done(n)
                    }
                } else {
                    if !first {
                        buf_advance(&mut self.out, u);
                        self.write_state = Some(EmbedWriteState::WriteRemainBuf(n, false));
                    }
                    EmbedWriteResult::Continue
                }
            },
            WriteOp::Remain(l, first) => {
                if u == buf_len(&self.out) {
                    self.index = advance_packet_index(self.index, len);
                    self.write_state = None;
                    if first { EmbedWriteResult::Continue } else { EmbedWriteResult::Done(l) }
                } else {
                    buf_advance(&mut self.out, u);
                    EmbedWriteResult::Continue
                }
            },
        }
    }
}

/// The reading side of an embedding connection.
pub struct EmbedReader {
    /// The recorded packets.
    pub file: Vec<PayloadInfo>,
    pub behavior: ProxyBehavior,
    /// The packet whose turn it is.
    pub index: usize,
    /// Bytes read but not yet handed over.
    pub read_buf: Vec<u8>,
    /// Where the next read fills the buffer.
    pub read_buf_start_index: usize,
    /// Bytes of the current data still to come from the stream.
    pub left_to_read_remote: usize,
    /// The read under way: how many bytes it asks for, and whether the
    /// caller's room is shorter than the packet.
    pub pending: Option<(usize, bool)>,
}

/// What the caller does for a read.
pub enum EmbedReadChoice {
    /// It is not this end's turn to read: wait.
    Wait,
    /// Hand these bytes to the caller.
    Deliver(Vec<u8>),
    /// Read up to this many bytes from the stream.
    ReadInto(usize),
}

/// What a read from the stream leads to.
pub enum EmbedReadOutcome {
    /// Decide again.
    Again,
    /// Hand these bytes to the caller.
    Deliver(Vec<u8>),
    /// The stream ended.
    Eof,
    /// The stream failed.
    Failed,
}

/// The big-endian number in the first four bytes.
pub open spec fn be32_value(p: Seq<u8>) -> nat {
    (p[0] as nat) * 0x1000000 + (p[1] as nat) * 0x10000 + (p[2] as nat) * 0x100 + (p[3] as nat)
}

impl EmbedReader {
    /// The recording is not empty and the turn lies in it; every packet has
    /// a direction.
    pub open spec fn well_formed(&self) -> bool {
        &&& self.file@.len() > 0
        &&& self.index < self.file@.len()
        &&& forall|i: int| 0 <= i < self.file@.len() ==> ((#[trigger] self.file@[i]).direction == 1 || self.file@[i].direction == -1)
    }

    /// The packet whose turn it is.
    pub open spec fn current(&self) -> PayloadInfo {
        self.file@[self.index as int]
    }

    /// How many bytes the read under way asks for.
    pub open spec fn asked(&self) -> usize {
        match self.pending { Some((n, _)) => n, None => 0 }
    }

    /// Whether the caller's room is shorter than the packet being read.
    pub open spec fn room_short(&self) -> bool {
        match self.pending { Some((_, s)) => s, None => false }
    }

    /// A reader at the first packet; `first` holds bytes already received.
    pub fn new(file: Vec<PayloadInfo>, behavior: ProxyBehavior, first: Vec<u8>) -> (r: EmbedReader)
        ensures
            r.file == file,
            r.behavior == behavior,
            r.index == 0,
            r.read_buf == first,
            r.read_buf_start_index == 0,
            r.left_to_read_remote == 0,
            r.pending is None,
    {
        EmbedReader { file, behavior, index: 0, read_buf: first, read_buf_start_index: 0, left_to_read_remote: 0, pending: None }
    }

    /// Decides a read for a caller with `remaining` bytes of room: wait
    /// when it is not this end's turn; hand over buffered bytes first (as
    /// many as fit, the rest kept); else read as many bytes as the packet
    /// and the room allow into a fresh buffer.
    pub fn before_read(&mut self, remaining: usize) -> (c: EmbedReadChoice)
        requires
            old(self).well_formed(),
        ensures
            final(self).well_formed(),
            final(self).file == old(self).file,
            final(self).behavior == old(self).behavior,
            final(self).index == old(self).index,
            final(self).left_to_read_remote == old(self).left_to_read_remote,
            !direction_match_write_spec(old(self).behavior, old(self).current().direction) ==> (c is Wait
                && final(self).read_buf == old(self).read_buf && final(self).read_buf_start_index == old(self).read_buf_start_index
                && final(self).pending == old(self).pending),
            direction_match_write_spec(old(self).behavior, old(self).current().direction) ==> if old(self).read_buf@.len() > 0 {
                let b = old(self).read_buf@;
                let k: int = if remaining < b.len() { remaining as int } else { b.len() as int };
                c matches EmbedReadChoice::Deliver(d) && d@ == b.take(k) && final(self).read_buf@ == b.skip(k)
                    && final(self).read_buf_start_index == 0 && final(self).pending == old(self).pending
            } else {
                let len = old(self).current().length;
                let n = if len < remaining { len } else { remaining };
                c matches EmbedReadChoice::ReadInto(m) && m == n
                    && final(self).read_buf@ == zeros(n as nat) && final(self).read_buf_start_index == 0
                    && final(self).pending == Some((n, remaining < len))
            },
    {
        let cur = self.file[self.index];
        if !direction_match_write(self.behavior, cur.direction) {
            return EmbedReadChoice::Wait;
        }
        let blen = self.read_buf.len();
        if blen > 0 {
            let k = if remaining < blen { remaining } else { blen };
            let out = take_front(&mut self.read_buf, k);
            self.read_buf_start_index = 0;
            return EmbedReadChoice::Deliver(out);
        }
        let n = if cur.length < remaining { cur.length } else { remaining };
        let mut z: Vec<u8> = Vec::new();
        let mut i: usize = 0;
        while i < n
            invariant
                i <= n,
                z@ == zeros(i as nat),
            decreases n - i,
        {
            z.push(0);
            i = i + 1;
            assert(z@ =~= zeros(i as nat));
        }
        self.read_buf = z;
        self.read_buf_start_index = 0;
        self.pending = Some((n, remaining < cur.length));
        EmbedReadChoice::ReadInto(n)
    }

    /// A read asked for by `before_read` came back: `Some(data)` with the
    /// bytes read, or `None` when the stream failed.
    /// Too few bytes, or a packet longer than the room, leave what came
    /// (padded to the asked length) to be handed over and the rest of the
    /// packet to come. A whole packet moves the turn on; it hands over
    /// the rest of earlier data, or reads the 4-byte length that starts
    /// new data and hands over as much of that data as the packet and the
    /// room hold. Nothing read means the stream ended.
    pub fn after_read(&mut self, read: Option<&[u8]>, remaining: usize) -> (o: EmbedReadOutcome)
        requires
            old(self).well_formed(),
            old(self).pending is Some,
            read matches Some(d) ==> d@.len() <= old(self).asked() && d@.len() <= old(self).current().length
                && d@.len() <= old(self).read_buf@.len(),
            read matches Some(d) ==> (d@.len() > 0 && !old(self).room_short() && d@.len() == old(self).asked()
                && old(self).left_to_read_remote == 0 ==> d@.len() >= 4),
        ensures
            final(self).well_formed(),
            final(self).file == old(self).file,
            final(self).behavior == old(self).behavior,
            read is None ==> (o is Failed && final(self).index == old(self).index),
            read matches Some(d) ==> {
                let n = old(self).asked();
                let short = old(self).room_short();
                let len = old(self).current().length;
                let buf = d@ + old(self).read_buf@.skip(d@.len() as int);
                if d@.len() == 0 {
                    o is Eof && final(self).index == old(self).index
                } else if short || d@.len() < n {
                    &&& o is Again
                    &&& final(self).index == old(self).index
                    &&& final(self).left_to_read_remote == len - d@.len()
                    &&& final(self).read_buf_start_index == d@.len()
                    &&& final(self).read_buf@ == buf
                } else {
                    &&& final(self).index == next_index(old(self).index as nat, old(self).file@.len())
                    &&& if old(self).left_to_read_remote > 0 {
                        let left = old(self).left_to_read_remote;
                        let k = if buf.len() >= left { left as int } else { buf.len() as int };
                        &&& o matches EmbedReadOutcome::Deliver(x) && x@ == buf.take(k)
                        &&& final(self).read_buf@.len() == 0
                        &&& final(self).left_to_read_remote == left - k
                    } else {
                        let plen = be32_value(buf);
                        let rest = buf.skip(4);
                        if plen > rest.len() {
                            let k = if remaining < rest.len() { remaining as int } else { rest.len() as int };
                            &&& o matches EmbedReadOutcome::Deliver(x) && x@ == rest.take(k)
                            &&& final(self).read_buf@ == rest.skip(k)
                            &&& final(self).left_to_read_remote == plen - rest.len()
                        } else {
                            &&& o matches EmbedReadOutcome::Deliver(x) && x@ == rest.take(plen as int)
                            &&& final(self).read_buf@.len() == 0
                            &&& final(self).left_to_read_remote == 0
                        }
                    }
                }
            },
    {
        let (n, short) = match self.pending {
            Some(p) => p,
            None => (0, false),
        };
        let d = match read {
            None => {
                return EmbedReadOutcome::Failed;
            },
            Some(d) => d,
        };
        let filled = d.len();
        let cur = self.file[self.index];
        let ghost before = self.read_buf@;
        let blen = self.read_buf.len();
        let mut nb: Vec<u8> = Vec::new();
        let mut i: usize = 0;
        while i < filled
            invariant
                i <= filled,
                filled == d@.len(),
                nb@ == d@.take(i as int),
            decreases filled - i,
        {
            nb.push(d[i]);
            i = i + 1;
            assert(nb@ =~= d@.take(i as int));
        }
        assert(nb@ =~= d@);
        if filled < blen {
            let mut j: usize = filled;
            assert(nb@ =~= d@ + before.subrange(filled as int, j as int));
            while j < blen
                invariant
                    filled <= j <= blen,
                    filled == d@.len(),
                    blen == before.len(),
                    before == self.read_buf@,
                    nb@ == d@ + before.subrange(filled as int, j as int),
                decreases blen - j,
            {
                nb.push(self.read_buf[j]);
                j = j + 1;
                assert(nb@ =~= d@ + before.subrange(filled as int, j as int));
            }
            assert(before.subrange(filled as int, blen as int) =~= before.skip(filled as int));
        } else {
            assert(before.skip(filled as int) =~= Seq::<u8>::empty());
            assert(nb@ =~= d@ + before.skip(filled as int));
        }
        self.read_buf = nb;
        if filled == 0 {
            return EmbedReadOutcome::Eof;
        }
        if short || filled < n {
            self.left_to_read_remote = cur.length - filled;
            self.read_buf_start_index = filled;
            return EmbedReadOutcome::Again;
        }
        self.index = advance_packet_index(self.index, self.file.len());
        let buf_len = self.read_buf.len();
        if self.left_to_read_remote > 0 {
            let left = self.left_to_read_remote;
            let k = if buf_len >= left { left } else { buf_len };
            let out = take_front(&mut self.read_buf, k);
            self.read_buf = Vec::new();
            self.read_buf_start_index = 0;
            self.left_to_read_remote = left - k;
            return EmbedReadOutcome::Deliver(out);
        }
        let head = take_front(&mut self.read_buf, 4);
        let plen_u: u64 = (head[0] as u64) * 0x1000000 + (head[1] as u64) * 0x10000 + (head[2] as u64) * 0x100 + (head[3] as u64);
        let rest_len = self.read_buf.len();
        self.read_buf_start_index = 0;
        if plen_u > rest_len as u64 {
            self.left_to_read_remote = (plen_u - rest_len as u64) as usize;
            let k = if remaining < rest_len { remaining } else { rest_len };
            let out = take_front(&mut self.read_buf, k);
            EmbedReadOutcome::Deliver(out)
        } else {
            self.left_to_read_remote = 0;
            let out = take_front(&mut self.read_buf, plen_u as usize);
            self.read_buf = Vec::new();
            EmbedReadOutcome::Deliver(out)
        }
    }
}

/// Takes the first `k` bytes off `v`.
fn take_front(v: &mut Vec<u8>, k: usize) -> (r: Vec<u8>)
    requires
        k <= old(v)@.len(),
    ensures
        r@ == old(v)@.take(k as int),
        final(v)@ == old(v)@.skip(k as int),
{
    let mut front: Vec<u8> = Vec::new();
    let mut back: Vec<u8> = Vec::new();
    let n = v.len();
    let mut i: usize = 0;
    while i < n
        invariant
            i <= n,
            n == v@.len(),
            k <= n,
            i <= k ==> front@ == v@.take(i as int) && back@.len() == 0,
            i > k ==> front@ == v@.take(k as int) && back@ == v@.subrange(k as int, i as int),
        decreases n - i,
    {
        if i < k {
            front.push(v[i]);
        } else {
            back.push(v[i]);
        }
        i = i + 1;
        assert(i <= k ==> front@ =~= v@.take(i as int));
        assert(i > k ==> back@ =~= v@.subrange(k as int, i as int));
    }
    assert(back@ =~= v@.skip(k as int)) by {
        if n == k {
            assert(v@.skip(k as int).len() == 0);
        }
    }
    assert(front@ =~= v@.take(k as int));
    *v = back;
    front
}

} // verus!
