//! Framed messages ("imsg") between privilege-separated processes.
//!
//! A frame is a 16-byte header followed by its payload. The header holds the
//! message id, the total length of header and payload, flags, a peer id and
//! the sender's pid. A frame may travel with one file descriptor in the
//! control data of the same send.

use vstd::prelude::*;
use crate::ancillary::{
    fds_bytes, lemma_append_record, lemma_fds_bytes_len, lemma_fds_round_trip, record_bytes, records, rights_fds,
    clean, cmsg_space, fds_of, AncillaryData, SocketAncillary, SCM_RIGHTS, SOL_SOCKET,
};
use crate::error::Error;
use crate::wire::{
    get_u16, get_u32, le16, le32, lemma_i32_u32, lemma_val16_le16, lemma_val32_le32, put_u16,
    put_u32, val16, val32,
};

verus! {

/// Message ids up to this one are reserved for the runtime.
pub const RESERVED: u32 = 10;

/// The id of the control message that hands a peer channel to a child.
pub const CONNECT: u32 = 1;

/// The size of a frame header.
pub const HEADER_LENGTH: usize = 16;

/// The largest frame, header included.
pub const BUFFER_LENGTH: usize = 0xffff;

/// The size of the control buffer that goes with a send.
pub const ANCILLARY_LENGTH: usize = 128;

#[verifier::external_type_specification]
#[verifier::external_body]
pub struct ExBytesMut(bytes::BytesMut);

/// The bytes a `BytesMut` holds.
pub uninterp spec fn bytes_held(b: bytes::BytesMut) -> Seq<u8>;

/// Relies on `BytesMut::with_capacity`: a new buffer holds nothing.
#[verifier::external_body]
fn buffer_with_capacity(capacity: usize) -> (r: bytes::BytesMut)
    requires
        capacity <= isize::MAX,
    ensures
        bytes_held(r) == Seq::<u8>::empty(),
{
    bytes::BytesMut::with_capacity(capacity)
}

/// Relies on `BytesMut::len`: the number of bytes held.
#[verifier::external_body]
fn buffer_len(b: &bytes::BytesMut) -> (r: usize)
    ensures
        r == bytes_held(*b).len(),
{
    b.len()
}

/// Relies on `BytesMut::extend_from_slice`: the bytes are appended; it
/// panics only when the capacity would overflow.
#[verifier::external_body]
fn buffer_extend(b: &mut bytes::BytesMut, data: &[u8])
    requires
        bytes_held(*old(b)).len() + data@.len() <= isize::MAX,
    ensures
        bytes_held(*final(b)) == bytes_held(*old(b)) + data@,
{
    b.extend_from_slice(data)
}

/// Relies on `BytesMut::split_to`: the first `at` bytes move to the result
/// and the rest stay; it panics when `at` exceeds the length.
#[verifier::external_body]
fn buffer_split_to(b: &mut bytes::BytesMut, at: usize) -> (r: bytes::BytesMut)
    requires
        at <= bytes_held(*old(b)).len(),
    ensures
        bytes_held(r) == bytes_held(*old(b)).subrange(0, at as int),
        bytes_held(*final(b)) == bytes_held(*old(b)).subrange(
            at as int,
            bytes_held(*old(b)).len() as int,
        ),
{
    b.split_to(at)
}

/// Relies on `BytesMut` dereferencing to its bytes: a copy of the first `n`.
#[verifier::external_body]
fn buffer_prefix(b: &bytes::BytesMut, n: usize) -> (r: Vec<u8>)
    requires
        n <= bytes_held(*b).len(),
    ensures
        r@ == bytes_held(*b).subrange(0, n as int),
{
    b[..n].to_vec()
}

/// Relies on `nix::unistd::getpid`, which cannot fail: the id of the calling
/// process.
#[verifier::external_body]
fn current_pid() -> (r: i32) {
    nix::unistd::getpid().as_raw()
}

/// A frame header.
#[derive(Clone, Copy, Debug, Default, PartialEq, Eq)]
pub struct Message {
    /// Request type.
    pub id: u32,
    /// Total frame length, header and payload.
    pub length: u16,
    /// Optional flags.
    pub flags: u16,
    /// Target peer of a control message; free for applications otherwise.
    pub peer_id: u32,
    /// The sender's pid.
    pub pid: i32,
}

/// The bytes of a header.
pub open spec fn header_bytes(m: Message) -> Seq<u8> {
    le32(m.id) + le16(m.length) + le16(m.flags) + le32(m.peer_id) + le32(m.pid as u32)
}

/// The header read from the first 16 bytes of `b`.
pub open spec fn header_of(b: Seq<u8>) -> Message {
    Message {
        id: val32(b.subrange(0, 4)),
        length: val16(b.subrange(4, 6)),
        flags: val16(b.subrange(6, 8)),
        peer_id: val32(b.subrange(8, 12)),
        pid: val32(b.subrange(12, 16)) as i32,
    }
}

/// A header is read back from its bytes, whatever follows them.
pub proof fn lemma_header_round_trip(m: Message, rest: Seq<u8>)
    ensures
        header_of(header_bytes(m) + rest) == m,
{
    let b = header_bytes(m) + rest;
    assert(b.subrange(0, 4) =~= le32(m.id));
    assert(b.subrange(4, 6) =~= le16(m.length));
    assert(b.subrange(6, 8) =~= le16(m.flags));
    assert(b.subrange(8, 12) =~= le32(m.peer_id));
    assert(b.subrange(12, 16) =~= le32(m.pid as u32));
    lemma_val32_le32(m.id);
    lemma_val16_le16(m.length);
    lemma_val16_le16(m.flags);
    lemma_val32_le32(m.peer_id);
    lemma_val32_le32(m.pid as u32);
    lemma_i32_u32(m.pid);
}

impl Message {
    /// A header with the given id, stamped with the caller's pid.
    pub fn new(id: u32) -> (r: Message)
        ensures
            r.id == id,
            r.length == HEADER_LENGTH,
            r.flags == 0,
            r.peer_id == 0,
    {
        Message { id, length: HEADER_LENGTH as u16, flags: 0, peer_id: 0, pid: current_pid() }
    }

    /// A header with the lowest id that applications may send.
    pub fn min() -> (r: Message)
        ensures
            r.id == RESERVED + 1,
            r.length == HEADER_LENGTH,
            r.flags == 0,
            r.peer_id == 0,
    {
        Message::new(RESERVED + 1)
    }

    /// The control header that hands the channel to peer `peer_id` over.
    pub fn connect(peer_id: usize) -> (r: Message)
        ensures
            r.id == CONNECT,
            r.peer_id == peer_id as u32,
            r.length == HEADER_LENGTH,
            r.flags == 0,
    {
        Message { peer_id: peer_id as u32, ..Message::new(CONNECT) }
    }

    /// Appends the header's bytes to `out`.
    pub fn write(&self, out: &mut Vec<u8>)
        ensures
            final(out)@ == old(out)@ + header_bytes(*self),
    {
        put_u32(out, self.id);
        put_u16(out, self.length);
        put_u16(out, self.flags);
        put_u32(out, self.peer_id);
        put_u32(out, self.pid as u32);
        assert(final(out)@ =~= old(out)@ + header_bytes(*self));
    }

    /// Reads the header at the start of `buf`.
    pub fn read(buf: &[u8]) -> (r: Message)
        requires
            buf@.len() >= HEADER_LENGTH,
        ensures
            r == header_of(buf@),
    {
        Message {
            id: get_u32(buf, 0),
            length: get_u16(buf, 4),
            flags: get_u16(buf, 6),
            peer_id: get_u32(buf, 8),
            pid: get_u32(buf, 12) as i32,
        }
    }
}

/// A received frame: its header and payload.
#[derive(Debug)]
pub struct Frame {
    pub header: Message,
    pub payload: Vec<u8>,
}

/// The header a frame goes out with: the caller's header with the sender's
/// pid and the total length of a payload of `n` bytes.
pub open spec fn stamped(m: Message, pid: i32, n: nat) -> Message {
    Message { length: (HEADER_LENGTH + n) as u16, pid, ..m }
}

/// The bytes of a frame.
pub open spec fn frame_bytes(m: Message, payload: Seq<u8>) -> Seq<u8> {
    header_bytes(m) + payload
}

/// The control data that goes with a send: one `SCM_RIGHTS` record for a
/// descriptor, nothing without one.
pub open spec fn control_for(fd: Option<i32>) -> Seq<u8> {
    match fd {
        Some(f) => record_bytes(SOL_SOCKET, SCM_RIGHTS, fds_bytes(seq![f])),
        None => Seq::empty(),
    }
}

/// `b` starts with a whole frame.
pub open spec fn frame_ready(b: Seq<u8>) -> bool {
    &&& b.len() >= HEADER_LENGTH
    &&& header_of(b).length >= HEADER_LENGTH
    &&& b.len() >= header_of(b).length
}

/// `b` starts with a header whose length cannot hold the header itself.
pub open spec fn frame_invalid(b: Seq<u8>) -> bool {
    b.len() >= HEADER_LENGTH && header_of(b).length < HEADER_LENGTH
}

/// The whole frames at the start of `b`, in order, as header and payload.
pub open spec fn drain(b: Seq<u8>) -> Seq<(Message, Seq<u8>)>
    decreases b.len(),
{
    if frame_ready(b) {
        let n = header_of(b).length as int;
        seq![(header_of(b), b.subrange(HEADER_LENGTH as int, n))] + drain(b.subrange(n, b.len() as int))
    } else {
        Seq::empty()
    }
}

/// What is left of `b` after its whole frames.
pub open spec fn drain_rest(b: Seq<u8>) -> Seq<u8>
    decreases b.len(),
{
    if frame_ready(b) {
        let n = header_of(b).length as int;
        drain_rest(b.subrange(n, b.len() as int))
    } else {
        b
    }
}

/// What sending `message` with `fd` and `payload` as process `pid` gives,
/// on a channel that is `down` or not: `NotConnected` on a shut channel,
/// `InvalidData` when the frame would exceed the largest length, and
/// otherwise the stamped header, the frame's bytes and its control data.
pub open spec fn send_outcome(
    down: bool,
    message: Message,
    fd: Option<i32>,
    payload: Seq<u8>,
    pid: i32,
    r: Result<Outgoing, Error>,
) -> bool {
    if down {
        r == Err::<Outgoing, Error>(Error::NotConnected)
    } else if HEADER_LENGTH + payload.len() > BUFFER_LENGTH {
        r == Err::<Outgoing, Error>(Error::InvalidData)
    } else {
        &&& r matches Ok(o)
        &&& o.header == stamped(message, pid, payload.len())
        &&& o.bytes@ == frame_bytes(o.header, payload)
        &&& o.control.wf()
        &&& o.control.spec_buffer().len() == ANCILLARY_LENGTH
        &&& o.control.used() == control_for(fd)
        &&& !o.control.spec_truncated()
    }
}

/// A frame ready to be sent: its header, its bytes, and its control data.
#[derive(Debug)]
pub struct Outgoing {
    pub header: Message,
    pub bytes: Vec<u8>,
    pub control: SocketAncillary,
}

/// The state of one end of a channel: whether it was shut down, and the
/// bytes received but not yet taken as frames.
#[derive(Debug)]
pub struct Framer {
    shutdown: bool,
    buffer: bytes::BytesMut,
}

impl Framer {
    /// Whether the channel was shut down.
    pub closed spec fn is_down(&self) -> bool {
        self.shutdown
    }

    /// The bytes received but not yet taken as frames.
    pub closed spec fn buffered(&self) -> Seq<u8> {
        bytes_held(self.buffer)
    }

    /// A channel end that is open and holds nothing.
    pub fn new() -> (r: Framer)
        ensures
            !r.is_down(),
            r.buffered() == Seq::<u8>::empty(),
    {
        Framer { shutdown: false, buffer: buffer_with_capacity(BUFFER_LENGTH) }
    }

    /// Whether the channel was shut down.
    pub fn is_shutdown(&self) -> (r: bool)
        ensures
            r == self.is_down(),
    {
        self.shutdown
    }

    /// Marks the channel as shut down; what was buffered stays. On a channel
    /// that is already shut down this changes nothing.
    pub fn shutdown(&mut self)
        ensures
            final(self).is_down(),
            final(self).buffered() == old(self).buffered(),
            old(self).is_down() ==> *final(self) == *old(self),
    {
        self.shutdown = true;
    }

    /// Prepares a frame without the check on reserved ids: the runtime's own
    /// control messages go this way.
    pub fn prepare_send_internal(
        &self,
        message: Message,
        fd: Option<i32>,
        payload: &[u8],
        pid: i32,
    ) -> (r: Result<Outgoing, Error>)
        ensures
            send_outcome(self.is_down(), message, fd, payload@, pid, r),
    {
        if self.shutdown {
            return Err(Error::NotConnected);
        }
        if payload.len() > BUFFER_LENGTH - HEADER_LENGTH {
            return Err(Error::InvalidData);
        }
        let header = Message {
            length: (HEADER_LENGTH + payload.len()) as u16,
            pid,
            ..message
        };
        let mut bytes: Vec<u8> = Vec::new();
        header.write(&mut bytes);
        let ghost head = bytes@;
        let mut i: usize = 0;
        while i < payload.len()
            invariant
                i <= payload@.len(),
                bytes@ == head + payload@.subrange(0, i as int),
            decreases payload.len() - i,
        {
            bytes.push(payload[i]);
            i += 1;
            assert(bytes@ =~= head + payload@.subrange(0, i as int));
        }
        assert(payload@.subrange(0, payload@.len() as int) =~= payload@);
        let mut control = SocketAncillary::new(vec![0u8; ANCILLARY_LENGTH]);
        match fd {
            Some(f) => {
                let fds = vec![f];
                let added = control.add_fds(fds.as_slice());
                assert(fds@ =~= seq![f]);
                assert(added) by {
                    assert(cmsg_space(4) <= ANCILLARY_LENGTH);
                }
                assert(control.used() =~= control_for(fd));
            },
            None => {
                assert(control.used() =~= control_for(fd));
            },
        }
        Ok(Outgoing { header, bytes, control })
    }

    /// Prepares a frame of an application: ids up to `RESERVED` are refused
    /// with `InvalidArgument` before anything else is looked at.
    pub fn prepare_send(&self, message: Message, fd: Option<i32>, payload: &[u8], pid: i32) -> (r:
        Result<Outgoing, Error>)
        ensures
            message.id <= RESERVED ==> r == Err::<Outgoing, Error>(Error::InvalidArgument),
            message.id > RESERVED ==> send_outcome(self.is_down(), message, fd, payload@, pid, r),
    {
        if message.id <= RESERVED {
            return Err(Error::InvalidArgument);
        }
        self.prepare_send_internal(message, fd, payload, pid)
    }

    /// Prepares a frame of an application, stamped with the caller's pid.
    pub fn send_message(&self, message: Message, fd: Option<i32>, payload: &[u8]) -> (r: Result<
        Outgoing,
        Error,
    >)
        ensures
            message.id <= RESERVED ==> r == Err::<Outgoing, Error>(Error::InvalidArgument),
            message.id > RESERVED ==> exists|pid: i32|
                send_outcome(self.is_down(), message, fd, payload@, pid, r),
    {
        let pid = current_pid();
        self.prepare_send(message, fd, payload, pid)
    }

    /// Takes the bytes of one receive. An empty receive means the peer
    /// closed its end, and the result is `Ok(false)`.
    pub fn receive(&mut self, data: &[u8]) -> (r: Result<bool, Error>)
        ensures
            final(self).is_down() == old(self).is_down(),
            old(self).buffered().len() + data@.len() <= isize::MAX ==> r == Ok::<bool, Error>(
                data@.len() > 0,
            ) && final(self).buffered() == old(self).buffered() + data@,
            old(self).buffered().len() + data@.len() > isize::MAX ==> r == Err::<bool, Error>(
                Error::InvalidData,
            ) && final(self).buffered() == old(self).buffered(),
    {
        let held = buffer_len(&self.buffer);
        if held > isize::MAX as usize || data.len() > isize::MAX as usize - held {
            return Err(Error::InvalidData);
        }
        buffer_extend(&mut self.buffer, data);
        Ok(data.len() > 0)
    }

    /// Takes the next whole frame from the buffered bytes, if there is one.
    pub fn next_frame(&mut self) -> (r: Result<Option<Frame>, Error>)
        ensures
            final(self).is_down() == old(self).is_down(),
            old(self).is_down() ==> r == Err::<Option<Frame>, Error>(Error::NotConnected)
                && final(self).buffered() == old(self).buffered(),
            !old(self).is_down() && frame_invalid(old(self).buffered()) ==> r == Err::<
                Option<Frame>,
                Error,
            >(Error::InvalidData) && final(self).buffered() == old(self).buffered(),
            !old(self).is_down() && frame_ready(old(self).buffered()) ==> {
                &&& r matches Ok(Some(f))
                &&& drain(old(self).buffered()) == seq![(f.header, f.payload@)] + drain(
                    final(self).buffered(),
                )
                &&& drain_rest(old(self).buffered()) == drain_rest(final(self).buffered())
                &&& f.header == header_of(old(self).buffered())
                &&& f.payload@ == old(self).buffered().subrange(
                    HEADER_LENGTH as int,
                    f.header.length as int,
                )
                &&& final(self).buffered() == old(self).buffered().subrange(
                    f.header.length as int,
                    old(self).buffered().len() as int,
                )
            },
            !old(self).is_down() && !frame_ready(old(self).buffered()) && !frame_invalid(
                old(self).buffered(),
            ) ==> r == Ok::<Option<Frame>, Error>(None) && final(self).buffered() == old(
                self,
            ).buffered(),
    {
        if self.shutdown {
            return Err(Error::NotConnected);
        }
        let held = buffer_len(&self.buffer);
        if held < HEADER_LENGTH {
            return Ok(None);
        }
        let head = buffer_prefix(&self.buffer, HEADER_LENGTH);
        let header = Message::read(head.as_slice());
        assert(header == header_of(self.buffered())) by {
            assert(head@.subrange(0, 4) =~= self.buffered().subrange(0, 4));
            assert(head@.subrange(4, 6) =~= self.buffered().subrange(4, 6));
            assert(head@.subrange(6, 8) =~= self.buffered().subrange(6, 8));
            assert(head@.subrange(8, 12) =~= self.buffered().subrange(8, 12));
            assert(head@.subrange(12, 16) =~= self.buffered().subrange(12, 16));
        }
        let length = header.length as usize;
        if length < HEADER_LENGTH {
            return Err(Error::InvalidData);
        }
        if held < length {
            return Ok(None);
        }
        let ghost before = self.buffered();
        let frame = buffer_split_to(&mut self.buffer, length);
        let whole = buffer_prefix(&frame, length);
        let mut payload: Vec<u8> = Vec::new();
        let mut i: usize = HEADER_LENGTH;
        while i < length
            invariant
                HEADER_LENGTH <= i <= length,
                length == whole@.len(),
                payload@ == whole@.subrange(HEADER_LENGTH as int, i as int),
            decreases length - i,
        {
            payload.push(whole[i]);
            i += 1;
            assert(payload@ =~= whole@.subrange(HEADER_LENGTH as int, i as int));
        }
        assert(whole@ =~= before.subrange(0, length as int));
        assert(payload@ =~= before.subrange(HEADER_LENGTH as int, length as int));
        Ok(Some(Frame { header, payload }))
    }
}

/// The descriptor a message keeps: the one `held` already, or else the first
/// one received.
pub open spec fn kept_fd(held: Option<i32>, fds: Seq<i32>) -> Option<i32> {
    if held is Some {
        held
    } else if fds.len() > 0 {
        Some(fds[0])
    } else {
        None
    }
}

/// The received descriptors a message does not keep, to be closed.
pub open spec fn dropped_fds(held: Option<i32>, fds: Seq<i32>) -> Seq<i32> {
    if held is None && fds.len() > 0 {
        fds.drop_first()
    } else {
        fds
    }
}

/// The descriptors carried by the control data of a receive, in order.
pub fn received_fds(anc: &SocketAncillary) -> (r: Vec<i32>)
    requires
        anc.wf(),
    ensures
        r@ == rights_fds(records(anc.used())),
{
    let ghost target = rights_fds(records(anc.used()));
    let mut msgs = anc.messages();
    let mut out: Vec<i32> = Vec::new();
    assert(out@ + rights_fds(msgs.remaining()) =~= target);
    loop
        invariant
            out@ + rights_fds(msgs.remaining()) == target,
        ensures
            out@ == target,
        decreases msgs.remaining().len(),
    {
        let ghost rem = msgs.remaining();
        match msgs.next() {
            None => {
                assert(out@ =~= target);
                break ;
            },
            Some(Ok(AncillaryData::ScmRights(mut rights))) => {
                assert(rights_fds(rem) == fds_of(rights.rest()) + rights_fds(msgs.remaining()));
                assert(out@ + fds_of(rights.rest()) + rights_fds(msgs.remaining()) =~= target);
                loop
                    invariant
                        out@ + fds_of(rights.rest()) + rights_fds(msgs.remaining()) == target,
                    ensures
                        out@ + rights_fds(msgs.remaining()) == target,
                    decreases fds_of(rights.rest()).len(),
                {
                    let ghost left = fds_of(rights.rest());
                    match rights.next() {
                        Some(fd) => {
                            let ghost before = out@;
                            out.push(fd);
                            assert(out@ + fds_of(rights.rest()) =~= before + left);
                        },
                        None => {
                            assert(fds_of(rights.rest()) =~= Seq::<i32>::empty());
                            assert(out@ + rights_fds(msgs.remaining()) =~= target);
                            break ;
                        },
                    }
                }
            },
            Some(_) => {
                assert(rights_fds(rem) =~= rights_fds(msgs.remaining()));
            },
        }
    }
    out
}

/// Keeps one descriptor per message: the one `held` already, or else the
/// first one the control data carries. The others are returned, in order,
/// for the caller to close.
pub fn select_fd(held: Option<i32>, anc: &SocketAncillary) -> (r: (Option<i32>, Vec<i32>))
    requires
        anc.wf(),
    ensures
        r.0 == kept_fd(held, rights_fds(records(anc.used()))),
        r.1@ == dropped_fds(held, rights_fds(records(anc.used()))),
{
    let mut fds = received_fds(anc);
    if held.is_none() && fds.len() > 0 {
        let first = fds.remove(0);
        (Some(first), fds)
    } else {
        (held, fds)
    }
}

proof fn lemma_header_prefix(a: Seq<u8>, t: Seq<u8>)
    requires
        a.len() >= HEADER_LENGTH,
    ensures
        header_of(a + t) == header_of(a),
{
    assert((a + t).subrange(0, 4) =~= a.subrange(0, 4));
    assert((a + t).subrange(4, 6) =~= a.subrange(4, 6));
    assert((a + t).subrange(6, 8) =~= a.subrange(6, 8));
    assert((a + t).subrange(8, 12) =~= a.subrange(8, 12));
    assert((a + t).subrange(12, 16) =~= a.subrange(12, 16));
}

/// Frames found in bytes that arrive in two pieces: those whole in the first
/// piece, then those found in its leftover followed by the second piece.
pub proof fn lemma_drain_append(a: Seq<u8>, t: Seq<u8>)
    ensures
        drain(a + t) == drain(a) + drain(drain_rest(a) + t),
        drain_rest(a + t) == drain_rest(drain_rest(a) + t),
    decreases a.len(),
{
    if frame_ready(a) {
        lemma_header_prefix(a, t);
        let n = header_of(a).length as int;
        assert((a + t).subrange(HEADER_LENGTH as int, n) =~= a.subrange(HEADER_LENGTH as int, n));
        assert((a + t).subrange(n, (a + t).len() as int) =~= a.subrange(n, a.len() as int) + t);
        lemma_drain_append(a.subrange(n, a.len() as int), t);
        assert(drain(a + t) =~= drain(a) + drain(drain_rest(a) + t));
    } else {
        assert(drain(a) =~= Seq::<(Message, Seq<u8>)>::empty());
        assert(drain(a) + drain(drain_rest(a) + t) =~= drain(a + t));
    }
}

/// The bytes of a run of pieces, joined.
pub open spec fn concat(chunks: Seq<Seq<u8>>) -> Seq<u8>
    decreases chunks.len(),
{
    if chunks.len() == 0 {
        Seq::empty()
    } else {
        concat(chunks.drop_last()) + chunks.last()
    }
}

/// Receiving piece after piece, taking every whole frame after each one:
/// the frames taken, in order, and the bytes left buffered.
pub open spec fn fed(chunks: Seq<Seq<u8>>) -> (Seq<(Message, Seq<u8>)>, Seq<u8>)
    decreases chunks.len(),
{
    if chunks.len() == 0 {
        (Seq::empty(), Seq::empty())
    } else {
        let prev = fed(chunks.drop_last());
        (prev.0 + drain(prev.1 + chunks.last()), drain_rest(prev.1 + chunks.last()))
    }
}

/// However the bytes are cut into pieces, receiving them piece by piece
/// takes the same frames, in the same order, as receiving them at once.
pub proof fn lemma_fed_chunks(chunks: Seq<Seq<u8>>)
    ensures
        fed(chunks) == (drain(concat(chunks)), drain_rest(concat(chunks))),
    decreases chunks.len(),
{
    if chunks.len() == 0 {
        assert(drain(Seq::<u8>::empty()) =~= Seq::<(Message, Seq<u8>)>::empty());
    } else {
        lemma_fed_chunks(chunks.drop_last());
        lemma_drain_append(concat(chunks.drop_last()), chunks.last());
    }
}

/// A frame's header states its own length.
pub open spec fn well_formed_frame(f: (Message, Seq<u8>)) -> bool {
    f.0.length == HEADER_LENGTH + f.1.len()
}

/// The bytes of a run of frames, one after the other.
pub open spec fn stream_of(fs: Seq<(Message, Seq<u8>)>) -> Seq<u8>
    decreases fs.len(),
{
    if fs.len() == 0 {
        Seq::empty()
    } else {
        frame_bytes(fs[0].0, fs[0].1) + stream_of(fs.drop_first())
    }
}

/// The bytes of well-formed frames are read back as exactly those frames,
/// with nothing left over.
#[verifier::spinoff_prover]
#[verifier::rlimit(40)]
pub proof fn lemma_drain_stream(fs: Seq<(Message, Seq<u8>)>)
    requires
        forall|i: int| 0 <= i < fs.len() ==> well_formed_frame(#[trigger] fs[i]),
    ensures
        drain(stream_of(fs)) == fs,
        drain_rest(stream_of(fs)) == Seq::<u8>::empty(),
    decreases fs.len(),
{
    if fs.len() == 0 {
        assert(drain(Seq::<u8>::empty()) =~= Seq::<(Message, Seq<u8>)>::empty()) by {
            assert(!frame_ready(Seq::<u8>::empty()));
        }
    } else {
        let first = fs[0];
        let tail = fs.drop_first();
        assert forall|i: int| 0 <= i < tail.len() implies well_formed_frame(#[trigger] tail[i]) by {
            assert(tail[i] == fs[i + 1]);
        }
        lemma_drain_stream(tail);
        let later = stream_of(tail);
        assert(stream_of(fs) == frame_bytes(first.0, first.1) + later);
        assert(well_formed_frame(first));
        lemma_drain_one(first.0, first.1, later);
        assert(seq![first] + tail =~= fs);
    }
}

proof fn lemma_drain_one(m: Message, p: Seq<u8>, later: Seq<u8>)
    requires
        well_formed_frame((m, p)),
    ensures
        drain(frame_bytes(m, p) + later) == seq![(m, p)] + drain(later),
        drain_rest(frame_bytes(m, p) + later) == drain_rest(later),
{
    let b = frame_bytes(m, p) + later;
    assert(b =~= header_bytes(m) + (p + later));
    lemma_header_round_trip(m, p + later);
    let n = m.length as int;
    assert(frame_ready(b));
    assert(b.subrange(HEADER_LENGTH as int, n) =~= p);
    assert(b.subrange(n, b.len() as int) =~= later);
}

/// Well-formed frames sent one after the other and delivered in pieces of
/// any sizes are each taken exactly once, in the order sent.
pub proof fn lemma_chunked_delivery(fs: Seq<(Message, Seq<u8>)>, chunks: Seq<Seq<u8>>)
    requires
        forall|i: int| 0 <= i < fs.len() ==> well_formed_frame(#[trigger] fs[i]),
        concat(chunks) == stream_of(fs),
    ensures
        fed(chunks).0 == fs,
        fed(chunks).1 == Seq::<u8>::empty(),
{
    lemma_fed_chunks(chunks);
    lemma_drain_stream(fs);
}

/// A frame sent with an application id is read back with that id, flags and
/// peer id, the sender's pid, a length of header plus payload, and the
/// payload unchanged.
pub proof fn lemma_frame_preserved(message: Message, payload: Seq<u8>, pid: i32)
    requires
        HEADER_LENGTH + payload.len() <= BUFFER_LENGTH,
    ensures
        drain(frame_bytes(stamped(message, pid, payload.len()), payload)) == seq![
            (stamped(message, pid, payload.len()), payload),
        ],
        drain_rest(frame_bytes(stamped(message, pid, payload.len()), payload)) == Seq::<
            u8,
        >::empty(),
        stamped(message, pid, payload.len()).id == message.id,
        stamped(message, pid, payload.len()).flags == message.flags,
        stamped(message, pid, payload.len()).peer_id == message.peer_id,
        stamped(message, pid, payload.len()).pid == pid,
        stamped(message, pid, payload.len()).length == HEADER_LENGTH + payload.len(),
{
    let h = stamped(message, pid, payload.len());
    let fs = seq![(h, payload)];
    assert(stream_of(fs.drop_first()) =~= Seq::<u8>::empty());
    assert(stream_of(fs) =~= frame_bytes(h, payload));
    lemma_drain_stream(fs);
}

/// The descriptor sent with a frame is the one the receiver keeps, and no
/// descriptor is kept when none was sent.
pub proof fn lemma_fd_preserved(fd: Option<i32>)
    ensures
        rights_fds(records(control_for(fd))) == match fd {
            Some(f) => seq![f],
            None => Seq::<i32>::empty(),
        },
        kept_fd(None, rights_fds(records(control_for(fd)))) == fd,
        dropped_fds(None, rights_fds(records(control_for(fd)))) == Seq::<i32>::empty(),
{
    match fd {
        Some(f) => {
            lemma_one_fd_records(f);
        },
        None => {
            assert(records(Seq::<u8>::empty()) =~= Seq::<(i32, i32, Seq<u8>)>::empty());
        },
    }
}

proof fn lemma_one_fd_records(f: i32)
    ensures
        rights_fds(records(control_for(Some(f)))) == seq![f],
{
    let empty = Seq::<u8>::empty();
    let data = fds_bytes(seq![f]);
    lemma_fds_bytes_len(seq![f]);
    assert(clean(empty));
    assert(records(empty) =~= Seq::<(i32, i32, Seq<u8>)>::empty());
    lemma_append_record(empty, SOL_SOCKET, SCM_RIGHTS, data);
    assert(empty + record_bytes(SOL_SOCKET, SCM_RIGHTS, data) =~= control_for(Some(f)));
    let recs = records(control_for(Some(f)));
    assert(recs =~= seq![(SOL_SOCKET, SCM_RIGHTS, data)]);
    lemma_fds_round_trip(seq![f]);
    assert(recs.drop_first() =~= Seq::<(i32, i32, Seq<u8>)>::empty());
    assert(rights_fds(recs.drop_first()) =~= Seq::<i32>::empty());
    assert(rights_fds(recs) =~= seq![f]);
}

/// A shut channel refuses every send with `NotConnected`.
pub proof fn lemma_shut_refuses(
    message: Message,
    fd: Option<i32>,
    payload: Seq<u8>,
    pid: i32,
    r: Result<Outgoing, Error>,
)
    requires
        send_outcome(true, message, fd, payload, pid, r),
    ensures
        r == Err::<Outgoing, Error>(Error::NotConnected),
{
}

/// Checks that a send wrote the whole frame.
pub fn check_written(expected: usize, written: usize) -> (r: Result<(), Error>)
    ensures
        written == expected ==> r == Ok::<(), Error>(()),
        written != expected ==> r == Err::<(), Error>(Error::ShortWrite),
{
    if written != expected {
        Err(Error::ShortWrite)
    } else {
        Ok(())
    }
}

} // verus!
