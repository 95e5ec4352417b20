//! Control messages ("ancillary data") of a UNIX socket, used to pass file
//! descriptors and credentials alongside stream data.
//!
//! The buffer layout is that of 64-bit GNU/Linux: every record starts with a
//! 16-byte `cmsghdr` (an 8-byte length that counts header and data, then the
//! 4-byte level and type), followed by its data and zero padding up to a
//! multiple of 8 bytes. Fields are in the machine's (little-endian) order.

use vstd::prelude::*;
use crate::wire::{get_u32, get_u64, le32, le64, put_u32, put_u64, val32, val64};
use crate::wire::{lemma_i32_u32, lemma_val32_le32, lemma_val64_le64};
use vstd::std_specs::vec::*;

verus! {

/// Socket-level control messages.
pub const SOL_SOCKET: i32 = 1;

/// Control message type that carries file descriptors.
pub const SCM_RIGHTS: i32 = 1;

/// Control message type that carries process credentials.
pub const SCM_CREDENTIALS: i32 = 2;

/// Size of a control message header.
pub const CMSG_HEADER_LEN: usize = 16;

/// Size of one descriptor in an `SCM_RIGHTS` record.
pub const FD_LEN: usize = 4;

/// Size of one credential in an `SCM_CREDENTIALS` record.
pub const UCRED_LEN: usize = 12;

/// One parsed control message: level, type and data bytes.
pub type Cmsg = (i32, i32, Seq<u8>);

/// `CMSG_ALIGN`: `n` rounded up to a multiple of 8.
pub open spec fn cmsg_align(n: int) -> int {
    if n % 8 == 0 {
        n
    } else {
        n - n % 8 + 8
    }
}

/// `CMSG_LEN`: header plus `n` data bytes.
pub open spec fn cmsg_len(n: int) -> int {
    CMSG_HEADER_LEN + n
}

/// `CMSG_SPACE`: header plus `n` data bytes plus padding.
pub open spec fn cmsg_space(n: int) -> int {
    CMSG_HEADER_LEN + cmsg_align(n)
}

/// `n` zero bytes.
pub open spec fn zeros(n: int) -> Seq<u8> {
    Seq::new(n as nat, |i: int| 0u8)
}

/// The bytes of one record with the given level, type and data.
pub open spec fn record_bytes(level: i32, kind: i32, data: Seq<u8>) -> Seq<u8> {
    le64(cmsg_len(data.len() as int) as u64) + le32(level as u32) + le32(kind as u32) + data
        + zeros(cmsg_align(data.len() as int) - data.len())
}

/// The length field of the header at offset `c`.
pub open spec fn len_at(buf: Seq<u8>, c: int) -> int {
    val64(buf.subrange(c, c + 8)) as int
}

/// The level field of the header at offset `c`.
pub open spec fn level_at(buf: Seq<u8>, c: int) -> i32 {
    val32(buf.subrange(c + 8, c + 12)) as i32
}

/// The type field of the header at offset `c`.
pub open spec fn kind_at(buf: Seq<u8>, c: int) -> i32 {
    val32(buf.subrange(c + 12, c + 16)) as i32
}

/// A record starts at `c`: its header fits, and its length covers the header
/// and stays inside the buffer. A record that is shorter than its header or
/// runs past the end stops the traversal.
pub open spec fn has_record_at(buf: Seq<u8>, c: int) -> bool {
    &&& 0 <= c
    &&& c + CMSG_HEADER_LEN <= buf.len()
    &&& CMSG_HEADER_LEN <= len_at(buf, c)
    &&& c + len_at(buf, c) <= buf.len()
}

/// The records found by walking the headers from offset `c`, each next one
/// at the aligned end of the previous one.
pub open spec fn records_from(buf: Seq<u8>, c: int) -> Seq<Cmsg>
    decreases buf.len() + 8 - c,
{
    if has_record_at(buf, c) && c < buf.len() {
        let n = len_at(buf, c);
        seq![(level_at(buf, c), kind_at(buf, c), buf.subrange(c + CMSG_HEADER_LEN, c + n))]
            + records_from(buf, c + cmsg_align(n))
    } else {
        Seq::empty()
    }
}

/// The records of a buffer.
pub open spec fn records(buf: Seq<u8>) -> Seq<Cmsg> {
    records_from(buf, 0)
}

/// From `c` on, the buffer is a run of whole, padded records.
pub open spec fn clean_from(buf: Seq<u8>, c: int) -> bool
    decreases buf.len() + 8 - c,
{
    if c == buf.len() {
        true
    } else if has_record_at(buf, c) && c < buf.len() {
        let n = len_at(buf, c);
        c + cmsg_align(n) <= buf.len() && clean_from(buf, c + cmsg_align(n))
    } else {
        false
    }
}

/// The buffer is a run of whole, padded records.
pub open spec fn clean(buf: Seq<u8>) -> bool {
    clean_from(buf, 0)
}

/// Appending a record to a run of whole records adds exactly that record.
proof fn lemma_append_record_from(used: Seq<u8>, level: i32, kind: i32, data: Seq<u8>, c: int)
    requires
        0 <= c <= used.len(),
        clean_from(used, c),
        cmsg_len(data.len() as int) <= u64::MAX,
    ensures
        records_from(used + record_bytes(level, kind, data), c) == records_from(used, c) + seq![
            (level, kind, data),
        ],
        clean_from(used + record_bytes(level, kind, data), c),
    decreases used.len() - c,
{
    let rec = record_bytes(level, kind, data);
    let buf = used + rec;
    let n = cmsg_len(data.len() as int);
    if c == used.len() {
        assert(buf.subrange(c, c + 8) =~= le64(n as u64));
        assert(buf.subrange(c + 8, c + 12) =~= le32(level as u32));
        assert(buf.subrange(c + 12, c + 16) =~= le32(kind as u32));
        lemma_val64_le64(n as u64);
        lemma_val32_le32(level as u32);
        lemma_val32_le32(kind as u32);
        lemma_i32_u32(level);
        lemma_i32_u32(kind);
        assert(len_at(buf, c) == n);
        assert(cmsg_align(n) == CMSG_HEADER_LEN + cmsg_align(data.len() as int));
        assert(rec.len() == cmsg_align(n));
        assert(buf.subrange(c + CMSG_HEADER_LEN, c + n) =~= data);
        let next = c + cmsg_align(n);
        assert(next == buf.len());
        assert(!has_record_at(buf, next));
        assert(clean_from(buf, next));
        assert(records_from(buf, next) =~= Seq::<Cmsg>::empty());
        assert(records_from(used, c) =~= Seq::<Cmsg>::empty());
        assert(records_from(buf, c) =~= seq![(level, kind, data)]);
    } else {
        let m = len_at(used, c);
        assert(buf.subrange(c, c + 8) =~= used.subrange(c, c + 8));
        assert(buf.subrange(c + 8, c + 12) =~= used.subrange(c + 8, c + 12));
        assert(buf.subrange(c + 12, c + 16) =~= used.subrange(c + 12, c + 16));
        assert(buf.subrange(c + CMSG_HEADER_LEN, c + m) =~= used.subrange(
            c + CMSG_HEADER_LEN,
            c + m,
        ));
        lemma_append_record_from(used, level, kind, data, c + cmsg_align(m));
        assert(records_from(buf, c) =~= records_from(used, c) + seq![(level, kind, data)]);
    }
}

/// Appending a record to a buffer of whole records: the record is read back
/// last, after the earlier ones, and the buffer stays whole.
pub proof fn lemma_append_record(used: Seq<u8>, level: i32, kind: i32, data: Seq<u8>)
    requires
        clean(used),
        cmsg_len(data.len() as int) <= u64::MAX,
    ensures
        records(used + record_bytes(level, kind, data)) == records(used) + seq![
            (level, kind, data),
        ],
        clean(used + record_bytes(level, kind, data)),
{
    lemma_append_record_from(used, level, kind, data, 0);
}

/// The data of an `SCM_RIGHTS` record that carries `fds`.
pub open spec fn fds_bytes(fds: Seq<i32>) -> Seq<u8>
    decreases fds.len(),
{
    if fds.len() == 0 {
        Seq::empty()
    } else {
        le32(fds[0] as u32) + fds_bytes(fds.drop_first())
    }
}

/// The descriptors read from the data of an `SCM_RIGHTS` record, four bytes
/// each; a shorter tail is ignored.
pub open spec fn fds_of(data: Seq<u8>) -> Seq<i32>
    decreases data.len(),
{
    if data.len() < FD_LEN {
        Seq::empty()
    } else {
        seq![val32(data.subrange(0, 4)) as i32] + fds_of(data.subrange(4, data.len() as int))
    }
}

/// The bytes of one credential: pid, uid, gid.
pub open spec fn cred_bytes(c: ucred) -> Seq<u8> {
    le32(c.pid as u32) + le32(c.uid) + le32(c.gid)
}

/// The data of an `SCM_CREDENTIALS` record that carries `creds`.
pub open spec fn creds_bytes(creds: Seq<ucred>) -> Seq<u8>
    decreases creds.len(),
{
    if creds.len() == 0 {
        Seq::empty()
    } else {
        cred_bytes(creds[0]) + creds_bytes(creds.drop_first())
    }
}

/// The credentials read from the data of an `SCM_CREDENTIALS` record, twelve
/// bytes each; a shorter tail is ignored.
pub open spec fn creds_of(data: Seq<u8>) -> Seq<ucred>
    decreases data.len(),
{
    if data.len() < UCRED_LEN {
        Seq::empty()
    } else {
        seq![
            ucred {
                pid: val32(data.subrange(0, 4)) as i32,
                uid: val32(data.subrange(4, 8)),
                gid: val32(data.subrange(8, 12)),
            },
        ] + creds_of(data.subrange(12, data.len() as int))
    }
}

proof fn lemma_fds_bytes_push(fds: Seq<i32>, x: i32)
    ensures
        fds_bytes(fds.push(x)) == fds_bytes(fds) + le32(x as u32),
    decreases fds.len(),
{
    if fds.len() == 0 {
        assert(fds.push(x).drop_first() =~= Seq::<i32>::empty());
        assert(fds_bytes(Seq::<i32>::empty()) =~= Seq::<u8>::empty());
        assert(fds.push(x)[0] == x);
        assert(fds_bytes(fds) =~= Seq::<u8>::empty());
        assert(fds_bytes(fds.push(x)) =~= le32(x as u32));
    } else {
        assert(fds.push(x).drop_first() =~= fds.drop_first().push(x));
        lemma_fds_bytes_push(fds.drop_first(), x);
        assert(fds_bytes(fds.push(x)) =~= fds_bytes(fds) + le32(x as u32));
    }
}

proof fn lemma_creds_bytes_push(creds: Seq<ucred>, x: ucred)
    ensures
        creds_bytes(creds.push(x)) == creds_bytes(creds) + cred_bytes(x),
    decreases creds.len(),
{
    if creds.len() == 0 {
        assert(creds.push(x).drop_first() =~= Seq::<ucred>::empty());
        assert(creds_bytes(Seq::<ucred>::empty()) =~= Seq::<u8>::empty());
        assert(creds.push(x)[0] == x);
        assert(creds_bytes(creds) =~= Seq::<u8>::empty());
        assert(creds_bytes(creds.push(x)) =~= cred_bytes(x));
    } else {
        assert(creds.push(x).drop_first() =~= creds.drop_first().push(x));
        lemma_creds_bytes_push(creds.drop_first(), x);
        assert(creds_bytes(creds.push(x)) =~= creds_bytes(creds) + cred_bytes(x));
    }
}

/// Each descriptor takes four bytes.
pub proof fn lemma_fds_bytes_len(fds: Seq<i32>)
    ensures
        fds_bytes(fds).len() == 4 * fds.len(),
    decreases fds.len(),
{
    if fds.len() > 0 {
        lemma_fds_bytes_len(fds.drop_first());
    }
}

proof fn lemma_creds_bytes_len(creds: Seq<ucred>)
    ensures
        creds_bytes(creds).len() == 12 * creds.len(),
    decreases creds.len(),
{
    if creds.len() > 0 {
        lemma_creds_bytes_len(creds.drop_first());
    }
}

/// Descriptors written into a record are read back unchanged and in order.
pub proof fn lemma_fds_round_trip(fds: Seq<i32>)
    ensures
        fds_of(fds_bytes(fds)) == fds,
    decreases fds.len(),
{
    if fds.len() > 0 {
        let b = fds_bytes(fds);
        lemma_fds_bytes_len(fds.drop_first());
        assert(b.subrange(0, 4) =~= le32(fds[0] as u32));
        assert(b.subrange(4, b.len() as int) =~= fds_bytes(fds.drop_first()));
        lemma_val32_le32(fds[0] as u32);
        lemma_i32_u32(fds[0]);
        lemma_fds_round_trip(fds.drop_first());
        assert(fds_of(b) =~= fds);
    }
}

/// Credentials written into a record are read back unchanged and in order.
pub proof fn lemma_creds_round_trip(creds: Seq<ucred>)
    ensures
        creds_of(creds_bytes(creds)) == creds,
    decreases creds.len(),
{
    if creds.len() > 0 {
        let b = creds_bytes(creds);
        let c = creds[0];
        lemma_creds_bytes_len(creds.drop_first());
        assert(b.subrange(0, 4) =~= le32(c.pid as u32));
        assert(b.subrange(4, 8) =~= le32(c.uid));
        assert(b.subrange(8, 12) =~= le32(c.gid));
        assert(b.subrange(12, b.len() as int) =~= creds_bytes(creds.drop_first()));
        lemma_val32_le32(c.pid as u32);
        lemma_val32_le32(c.uid);
        lemma_val32_le32(c.gid);
        lemma_i32_u32(c.pid);
        lemma_creds_round_trip(creds.drop_first());
        assert(creds_of(b) =~= creds);
    }
}

/// The descriptors a record carries: those of an `SCM_RIGHTS` record, none
/// for any other kind.
pub open spec fn record_fds(rec: Cmsg) -> Seq<i32> {
    if rec.0 == SOL_SOCKET && rec.1 == SCM_RIGHTS {
        fds_of(rec.2)
    } else {
        Seq::empty()
    }
}

/// The descriptors carried by a run of records, in order.
pub open spec fn rights_fds(recs: Seq<Cmsg>) -> Seq<i32>
    decreases recs.len(),
{
    if recs.len() == 0 {
        Seq::empty()
    } else {
        record_fds(recs[0]) + rights_fds(recs.drop_first())
    }
}

/// `CMSG_ALIGN` on a length.
fn align8(n: usize) -> (r: usize)
    requires
        n <= usize::MAX - 8,
    ensures
        r == cmsg_align(n as int),
        n <= r <= n + 7,
{
    if n % 8 == 0 {
        n
    } else {
        n - n % 8 + 8
    }
}

/// A control message header, as the kernel lays it out.
#[allow(non_camel_case_types)]
#[derive(Clone, Copy, Debug, PartialEq, Eq)]
pub struct cmsghdr {
    /// Length of header and data, without the trailing padding.
    pub cmsg_len: u64,
    /// Originating protocol.
    pub cmsg_level: i32,
    /// Protocol-specific type.
    pub cmsg_type: i32,
}

impl cmsghdr {
    /// The header's bytes.
    pub open spec fn spec_bytes(self) -> Seq<u8> {
        le64(self.cmsg_len) + le32(self.cmsg_level as u32) + le32(self.cmsg_type as u32)
    }

    /// Appends the header's bytes to `out`.
    pub fn write(&self, out: &mut Vec<u8>)
        ensures
            final(out)@ == old(out)@ + self.spec_bytes(),
    {
        put_u64(out, self.cmsg_len);
        put_u32(out, self.cmsg_level as u32);
        put_u32(out, self.cmsg_type as u32);
        assert(final(out)@ =~= old(out)@ + self.spec_bytes());
    }

    /// Reads the header at offset `at` of `buf`.
    pub fn read(buf: &[u8], at: usize) -> (h: cmsghdr)
        requires
            at + CMSG_HEADER_LEN <= buf@.len(),
        ensures
            h.cmsg_len as int == len_at(buf@, at as int),
            h.cmsg_level == level_at(buf@, at as int),
            h.cmsg_type == kind_at(buf@, at as int),
    {
        let len = buf.len();
        assert(at + 12 < len);
        cmsghdr {
            cmsg_len: get_u64(buf, at),
            cmsg_level: get_u32(buf, at + 8) as i32,
            cmsg_type: get_u32(buf, at + 12) as i32,
        }
    }
}

/// Credentials of a process: pid, uid and gid.
#[allow(non_camel_case_types)]
#[derive(Clone, Copy, Debug, PartialEq, Eq)]
pub struct ucred {
    pub pid: i32,
    pub uid: u32,
    pub gid: u32,
}

/// UNIX credentials that can travel in an `SCM_CREDENTIALS` record.
#[derive(Clone, Copy, Debug)]
pub struct SocketCred(ucred);

impl View for SocketCred {
    type V = ucred;

    closed spec fn view(&self) -> ucred {
        self.0
    }
}

impl SocketCred {
    /// Credentials with pid, uid and gid set to 0.
    pub fn new() -> (r: SocketCred)
        ensures
            r@ == (ucred { pid: 0, uid: 0, gid: 0 }),
    {
        SocketCred(ucred { pid: 0, uid: 0, gid: 0 })
    }

    /// Sets the pid.
    pub fn set_pid(&mut self, pid: i32)
        ensures
            final(self)@ == (ucred { pid, ..old(self)@ }),
    {
        self.0.pid = pid;
    }

    /// The pid.
    pub fn get_pid(&self) -> (r: i32)
        ensures
            r == self@.pid,
    {
        self.0.pid
    }

    /// Sets the uid.
    pub fn set_uid(&mut self, uid: u32)
        ensures
            final(self)@ == (ucred { uid, ..old(self)@ }),
    {
        self.0.uid = uid;
    }

    /// The uid.
    pub fn get_uid(&self) -> (r: u32)
        ensures
            r == self@.uid,
    {
        self.0.uid
    }

    /// Sets the gid.
    pub fn set_gid(&mut self, gid: u32)
        ensures
            final(self)@ == (ucred { gid, ..old(self)@ }),
    {
        self.0.gid = gid;
    }

    /// The gid.
    pub fn get_gid(&self) -> (r: u32)
        ensures
            r == self@.gid,
    {
        self.0.gid
    }
}

/// The bytes of a record with the given level, type and data.
fn build_record(level: i32, kind: i32, data: &Vec<u8>) -> (r: Vec<u8>)
    requires
        data.len() <= u32::MAX,
        data.len() <= usize::MAX - 8,
    ensures
        r@ == record_bytes(level, kind, data@),
{
    let mut r: Vec<u8> = Vec::new();
    let h = cmsghdr { cmsg_len: 16u64 + data.len() as u64, cmsg_level: level, cmsg_type: kind };
    h.write(&mut r);
    let ghost head = r@;
    let mut i: usize = 0;
    while i < data.len()
        invariant
            i <= data.len(),
            r@ == head + data@.subrange(0, i as int),
        decreases data.len() - i,
    {
        r.push(data[i]);
        i += 1;
        assert(r@ =~= head + data@.subrange(0, i as int));
    }
    let pad = align8(data.len()) - data.len();
    let mut k: usize = 0;
    while k < pad
        invariant
            k <= pad,
            pad == cmsg_align(data.len() as int) - data.len(),
            r@ == head + data@ + zeros(k as int),
        decreases pad - k,
    {
        r.push(0u8);
        k += 1;
        assert(r@ =~= head + data@ + zeros(k as int));
    }
    assert(data@.subrange(0, data.len() as int) =~= data@);
    assert(r@ =~= record_bytes(level, kind, data@));
    r
}

/// The error returned for a control message of a kind this crate does not read.
#[non_exhaustive]
#[derive(Clone, Copy, Debug, PartialEq, Eq)]
pub enum AncillaryError {
    Unknown { cmsg_level: i32, cmsg_type: i32 },
}

/// The descriptors of one `SCM_RIGHTS` record, read one at a time.
pub struct ScmRights {
    data: Vec<u8>,
    pos: usize,
}

impl ScmRights {
    /// The data not read yet.
    pub closed spec fn rest(&self) -> Seq<u8> {
        if self.pos <= self.data@.len() {
            self.data@.subrange(self.pos as int, self.data@.len() as int)
        } else {
            Seq::empty()
        }
    }

    /// The next descriptor, if four more bytes remain.
    pub fn next(&mut self) -> (r: Option<i32>)
        ensures
            fds_of(old(self).rest()).len() == 0 ==> r is None && final(self).rest() == old(
                self,
            ).rest(),
            fds_of(old(self).rest()).len() > 0 ==> r == Some(fds_of(old(self).rest())[0])
                && fds_of(final(self).rest()) == fds_of(old(self).rest()).drop_first(),
    {
        if self.pos > self.data.len() || self.data.len() - self.pos < FD_LEN {
            return None;
        }
        let ghost rest = self.rest();
        let fd = get_u32(self.data.as_slice(), self.pos) as i32;
        self.pos = self.pos + FD_LEN;
        assert(rest.subrange(0, 4) =~= self.data@.subrange(self.pos - 4, self.pos as int));
        assert(self.rest() =~= rest.subrange(4, rest.len() as int));
        Some(fd)
    }
}

/// The credentials of one `SCM_CREDENTIALS` record, read one at a time.
pub struct ScmCredentials {
    data: Vec<u8>,
    pos: usize,
}

impl ScmCredentials {
    /// The data not read yet.
    pub closed spec fn rest(&self) -> Seq<u8> {
        if self.pos <= self.data@.len() {
            self.data@.subrange(self.pos as int, self.data@.len() as int)
        } else {
            Seq::empty()
        }
    }

    /// The next credential, if twelve more bytes remain.
    pub fn next(&mut self) -> (r: Option<SocketCred>)
        ensures
            creds_of(old(self).rest()).len() == 0 ==> r is None && final(self).rest() == old(
                self,
            ).rest(),
            creds_of(old(self).rest()).len() > 0 ==> r is Some && r.unwrap()@ == creds_of(
                old(self).rest(),
            )[0] && creds_of(final(self).rest()) == creds_of(old(self).rest()).drop_first(),
    {
        if self.pos > self.data.len() || self.data.len() - self.pos < UCRED_LEN {
            return None;
        }
        let ghost rest = self.rest();
        let p = self.pos;
        let pid = get_u32(self.data.as_slice(), p) as i32;
        let uid = get_u32(self.data.as_slice(), p + 4);
        let gid = get_u32(self.data.as_slice(), p + 8);
        self.pos = p + UCRED_LEN;
        assert(rest.subrange(0, 4) =~= self.data@.subrange(p as int, p + 4));
        assert(rest.subrange(4, 8) =~= self.data@.subrange(p + 4, p + 8));
        assert(rest.subrange(8, 12) =~= self.data@.subrange(p + 8, p + 12));
        assert(self.rest() =~= rest.subrange(12, rest.len() as int));
        Some(SocketCred(ucred { pid, uid, gid }))
    }
}

/// One control message, by kind.
pub enum AncillaryData {
    ScmRights(ScmRights),
    ScmCredentials(ScmCredentials),
}

/// `res` is what a control message `rec` is read as: descriptors for
/// `(SOL_SOCKET, SCM_RIGHTS)`, credentials for `(SOL_SOCKET, SCM_CREDENTIALS)`,
/// and otherwise an error that names its level and type.
pub open spec fn describes(res: Result<AncillaryData, AncillaryError>, rec: Cmsg) -> bool {
    if rec.0 == SOL_SOCKET && rec.1 == SCM_RIGHTS {
        res matches Ok(AncillaryData::ScmRights(r)) && r.rest() == rec.2
    } else if rec.0 == SOL_SOCKET && rec.1 == SCM_CREDENTIALS {
        res matches Ok(AncillaryData::ScmCredentials(c)) && c.rest() == rec.2
    } else {
        res == Err::<AncillaryData, AncillaryError>(
            AncillaryError::Unknown { cmsg_level: rec.0, cmsg_type: rec.1 },
        )
    }
}

/// Reads a record's data as the kind its level and type name.
fn classify(level: i32, kind: i32, data: Vec<u8>) -> (r: Result<AncillaryData, AncillaryError>)
    ensures
        describes(r, (level, kind, data@)),
{
    if level == SOL_SOCKET && kind == SCM_RIGHTS {
        let r = ScmRights { data, pos: 0 };
        assert(r.rest() =~= data@);
        Ok(AncillaryData::ScmRights(r))
    } else if level == SOL_SOCKET && kind == SCM_CREDENTIALS {
        let c = ScmCredentials { data, pos: 0 };
        assert(c.rest() =~= data@);
        Ok(AncillaryData::ScmCredentials(c))
    } else {
        Err(AncillaryError::Unknown { cmsg_level: level, cmsg_type: kind })
    }
}

/// The control messages of a buffer, read one at a time.
pub struct Messages {
    buffer: Vec<u8>,
    offset: usize,
}

impl Messages {
    /// The records not read yet.
    pub closed spec fn remaining(&self) -> Seq<Cmsg> {
        records_from(self.buffer@, self.offset as int)
    }

    /// The next control message, classified by level and type.
    pub fn next(&mut self) -> (r: Option<Result<AncillaryData, AncillaryError>>)
        ensures
            old(self).remaining().len() == 0 ==> r is None && final(self).remaining() == old(
                self,
            ).remaining(),
            old(self).remaining().len() > 0 ==> r is Some && describes(
                r.unwrap(),
                old(self).remaining()[0],
            ) && final(self).remaining() == old(self).remaining().drop_first(),
    {
        let len = self.buffer.len();
        let off = self.offset;
        if off > len || len - off < CMSG_HEADER_LEN {
            return None;
        }
        let h = cmsghdr::read(self.buffer.as_slice(), off);
        if h.cmsg_len < CMSG_HEADER_LEN as u64 || h.cmsg_len > (len - off) as u64 {
            return None;
        }
        let n = h.cmsg_len as usize;
        let mut data: Vec<u8> = Vec::new();
        let mut i: usize = off + CMSG_HEADER_LEN;
        while i < off + n
            invariant
                off + CMSG_HEADER_LEN <= i <= off + n,
                off + n <= len,
                len == self.buffer@.len(),
                data@ == self.buffer@.subrange(off + CMSG_HEADER_LEN, i as int),
            decreases off + n - i,
        {
            data.push(self.buffer[i]);
            i += 1;
            assert(data@ =~= self.buffer@.subrange(off + CMSG_HEADER_LEN, i as int));
        }
        self.offset = if n <= usize::MAX - 8 {
            match off.checked_add(align8(n)) {
                Some(next) => next,
                None => len,
            }
        } else {
            len
        };
        assert(cmsg_align(n as int) >= n);
        assert(records_from(self.buffer@, self.offset as int) == records_from(
            self.buffer@,
            off + cmsg_align(n as int),
        ));
        Some(classify(h.cmsg_level, h.cmsg_type, data))
    }
}

/// A control message buffer: a byte buffer, the number of bytes in use, and
/// whether the last receive cut the control data short.
#[derive(Debug)]
pub struct SocketAncillary {
    buffer: Vec<u8>,
    length: usize,
    truncated: bool,
}

impl SocketAncillary {
    /// The whole buffer.
    pub closed spec fn spec_buffer(&self) -> Seq<u8> {
        self.buffer@
    }

    /// The number of bytes in use.
    pub closed spec fn spec_len(&self) -> nat {
        self.length as nat
    }

    /// The truncation flag.
    pub closed spec fn spec_truncated(&self) -> bool {
        self.truncated
    }

    /// The bytes in use never exceed the buffer.
    pub closed spec fn wf(&self) -> bool {
        self.length <= self.buffer@.len()
    }

    /// A well-formed buffer never has more bytes in use than it holds.
    pub proof fn lemma_wf_in_bounds(&self)
        requires
            self.wf(),
        ensures
            self.spec_len() <= self.spec_buffer().len(),
    {
    }

    /// The bytes in use.
    pub open spec fn used(&self) -> Seq<u8> {
        self.spec_buffer().subrange(0, self.spec_len() as int)
    }

    /// A control message buffer over `buffer`, with nothing in use.
    pub fn new(buffer: Vec<u8>) -> (r: SocketAncillary)
        ensures
            r.wf(),
            r.spec_buffer() == buffer@,
            r.spec_len() == 0,
            r.spec_len() <= r.spec_buffer().len(),
            clean(r.used()),
            !r.spec_truncated(),
    {
        let r = SocketAncillary { buffer, length: 0, truncated: false };
        assert(r.used() =~= Seq::<u8>::empty());
        r
    }

    /// The size of the buffer.
    pub fn capacity(&self) -> (r: usize)
        ensures
            r == self.spec_buffer().len(),
    {
        self.buffer.len()
    }

    /// The number of bytes in use.
    pub fn len(&self) -> (r: usize)
        ensures
            r == self.spec_len(),
    {
        self.length
    }

    /// Whether no byte is in use.
    pub fn is_empty(&self) -> (r: bool)
        ensures
            r == (self.spec_len() == 0),
    {
        self.length == 0
    }

    /// Whether the last receive cut the control data short.
    pub fn truncated(&self) -> (r: bool)
        ensures
            r == self.spec_truncated(),
    {
        self.truncated
    }

    /// The control messages in use, in order.
    pub fn messages(&self) -> (r: Messages)
        requires
            self.wf(),
        ensures
            r.remaining() == records(self.used()),
    {
        Messages { buffer: self.used_bytes(), offset: 0 }
    }

    /// A copy of the bytes in use.
    pub fn used_bytes(&self) -> (r: Vec<u8>)
        requires
            self.wf(),
        ensures
            r@ == self.used(),
    {
        let mut r: Vec<u8> = Vec::new();
        let mut i: usize = 0;
        while i < self.length
            invariant
                self.wf(),
                i <= self.length,
                r@ == self.buffer@.subrange(0, i as int),
            decreases self.length - i,
        {
            r.push(self.buffer[i]);
            i += 1;
            assert(r@ =~= self.buffer@.subrange(0, i as int));
        }
        r
    }

    /// Appends a record after the bytes in use, if it fits. On success the
    /// truncation flag is cleared; on failure nothing changes.
    fn add_record(&mut self, level: i32, kind: i32, data: &Vec<u8>) -> (r: bool)
        requires
            old(self).wf(),
            data.len() <= u32::MAX,
        ensures
            final(self).wf(),
            r == (old(self).spec_len() + cmsg_space(data.len() as int) <= old(
                self,
            ).spec_buffer().len()),
            r ==> final(self).used() == old(self).used() + record_bytes(level, kind, data@)
                && final(self).spec_len() == old(self).spec_len() + cmsg_space(data.len() as int)
                && final(self).spec_buffer().len() == old(self).spec_buffer().len()
                && !final(self).spec_truncated(),
            !r ==> *final(self) == *old(self),
    {
        let cap = self.buffer.len();
        if data.len() > usize::MAX - 8 {
            return false;
        }
        let space = match align8(data.len()).checked_add(CMSG_HEADER_LEN) {
            Some(s) => s,
            None => return false,
        };
        let new_length = match self.length.checked_add(space) {
            Some(n) => n,
            None => return false,
        };
        if new_length > cap {
            return false;
        }
        let rec = build_record(level, kind, data);
        assert(rec@.len() == space) by {
            assert(rec@.len() == 16 + data@.len() + cmsg_align(data.len() as int) - data.len());
        }
        let ghost old_buf = self.buffer@;
        let start = self.length;
        let mut j: usize = 0;
        while j < space
            invariant
                j <= space,
                start + space == new_length,
                new_length <= cap,
                rec@.len() == space,
                old_buf.len() == cap,
                self.buffer@.len() == cap,
                forall|k: int| 0 <= k < start ==> self.buffer@[k] == old_buf[k],
                forall|k: int| start <= k < start + j ==> self.buffer@[k] == rec@[k - start],
            decreases space - j,
        {
            self.buffer.set(start + j, rec[j]);
            j += 1;
        }
        self.length = new_length;
        self.truncated = false;
        assert(self.buffer@.subrange(0, new_length as int) =~= old_buf.subrange(0, start as int)
            + rec@);
        assert(old_buf.subrange(0, start as int) =~= old(self).used());
        true
    }

    /// Appends an `SCM_RIGHTS` record that carries `fds`, if it fits and its
    /// data length fits in 32 bits. On success the truncation flag is
    /// cleared; on failure nothing changes.
    pub fn add_fds(&mut self, fds: &[i32]) -> (r: bool)
        requires
            old(self).wf(),
        ensures
            final(self).wf(),
            r == (4 * fds@.len() <= u32::MAX && old(self).spec_len() + cmsg_space(
                (4 * fds@.len()) as int,
            ) <= old(self).spec_buffer().len()),
            r ==> final(self).used() == old(self).used() + record_bytes(
                SOL_SOCKET,
                SCM_RIGHTS,
                fds_bytes(fds@),
            ) && final(self).spec_buffer().len() == old(self).spec_buffer().len()
                && !final(self).spec_truncated(),
            final(self).spec_len() <= final(self).spec_buffer().len(),
            r ==> final(self).spec_len() == old(self).spec_len() + cmsg_space(
                (4 * fds@.len()) as int,
            ),
            r && clean(old(self).used()) ==> clean(final(self).used()) && records(final(self).used())
                == records(old(self).used()) + seq![(SOL_SOCKET, SCM_RIGHTS, fds_bytes(fds@))],
            fds_of(fds_bytes(fds@)) == fds@,
            !r ==> *final(self) == *old(self),
    {
        proof {
            lemma_fds_round_trip(fds@);
            lemma_fds_bytes_len(fds@);
        }
        if fds.len() > (u32::MAX / 4) as usize {
            return false;
        }
        let mut data: Vec<u8> = Vec::new();
        let mut i: usize = 0;
        while i < fds.len()
            invariant
                i <= fds@.len(),
                data@ == fds_bytes(fds@.subrange(0, i as int)),
            decreases fds.len() - i,
        {
            proof {
                lemma_fds_bytes_push(fds@.subrange(0, i as int), fds@[i as int]);
                assert(fds@.subrange(0, i + 1) =~= fds@.subrange(0, i as int).push(fds@[i as int]));
            }
            put_u32(&mut data, fds[i] as u32);
            i += 1;
        }
        proof {
            assert(fds@.subrange(0, fds@.len() as int) =~= fds@);
            lemma_fds_bytes_len(fds@);
        }
        let r = self.add_record(SOL_SOCKET, SCM_RIGHTS, &data);
        proof {
            if r && clean(old(self).used()) {
                lemma_append_record(old(self).used(), SOL_SOCKET, SCM_RIGHTS, data@);
            }
        }
        r
    }

    /// Appends an `SCM_CREDENTIALS` record that carries `creds`, if it fits
    /// and its data length fits in 32 bits. On success the truncation flag is
    /// cleared; on failure nothing changes.
    pub fn add_creds(&mut self, creds: &[SocketCred]) -> (r: bool)
        requires
            old(self).wf(),
        ensures
            final(self).wf(),
            r == (12 * creds@.len() <= u32::MAX && old(self).spec_len() + cmsg_space(
                (12 * creds@.len()) as int,
            ) <= old(self).spec_buffer().len()),
            r ==> final(self).used() == old(self).used() + record_bytes(
                SOL_SOCKET,
                SCM_CREDENTIALS,
                creds_bytes(creds@.map_values(|c: SocketCred| c@)),
            ) && final(self).spec_buffer().len() == old(self).spec_buffer().len()
                && !final(self).spec_truncated(),
            final(self).spec_len() <= final(self).spec_buffer().len(),
            r ==> final(self).spec_len() == old(self).spec_len() + cmsg_space(
                (12 * creds@.len()) as int,
            ),
            r && clean(old(self).used()) ==> clean(final(self).used()) && records(final(self).used())
                == records(old(self).used()) + seq![
                (SOL_SOCKET, SCM_CREDENTIALS, creds_bytes(creds@.map_values(|c: SocketCred| c@))),
            ],
            creds_of(creds_bytes(creds@.map_values(|c: SocketCred| c@))) == creds@.map_values(
                |c: SocketCred| c@,
            ),
            !r ==> *final(self) == *old(self),
    {
        let ghost all = creds@.map_values(|c: SocketCred| c@);
        proof {
            lemma_creds_round_trip(all);
            lemma_creds_bytes_len(all);
        }
        if creds.len() > (u32::MAX / 12) as usize {
            return false;
        }
        let mut data: Vec<u8> = Vec::new();
        let mut i: usize = 0;
        while i < creds.len()
            invariant
                i <= creds@.len(),
                all == creds@.map_values(|c: SocketCred| c@),
                data@ == creds_bytes(all.subrange(0, i as int)),
            decreases creds.len() - i,
        {
            let c = creds[i].0;
            proof {
                lemma_creds_bytes_push(all.subrange(0, i as int), all[i as int]);
                assert(all.subrange(0, i + 1) =~= all.subrange(0, i as int).push(all[i as int]));
            }
            put_u32(&mut data, c.pid as u32);
            put_u32(&mut data, c.uid);
            put_u32(&mut data, c.gid);
            i += 1;
        }
        proof {
            assert(all.subrange(0, all.len() as int) =~= all);
            lemma_creds_bytes_len(all);
        }
        let r = self.add_record(SOL_SOCKET, SCM_CREDENTIALS, &data);
        proof {
            if r && clean(old(self).used()) {
                lemma_append_record(old(self).used(), SOL_SOCKET, SCM_CREDENTIALS, data@);
            }
        }
        r
    }

    /// Takes the control data of a receive: `data` becomes the bytes in use
    /// and `truncated` the truncation flag.
    pub fn set_received(&mut self, data: &[u8], truncated: bool)
        requires
            old(self).wf(),
            data@.len() <= old(self).spec_buffer().len(),
        ensures
            final(self).wf(),
            final(self).used() == data@,
            final(self).spec_len() == data@.len(),
            final(self).spec_len() <= final(self).spec_buffer().len(),
            final(self).spec_buffer().len() == old(self).spec_buffer().len(),
            final(self).spec_truncated() == truncated,
    {
        let mut i: usize = 0;
        while i < data.len()
            invariant
                i <= data@.len(),
                data@.len() <= self.buffer@.len(),
                self.buffer@.len() == old(self).buffer@.len(),
                self.buffer@.subrange(0, i as int) == data@.subrange(0, i as int),
            decreases data.len() - i,
        {
            self.buffer.set(i, data[i]);
            i += 1;
            assert(self.buffer@.subrange(0, i as int) =~= data@.subrange(0, i as int));
        }
        self.length = data.len();
        self.truncated = truncated;
        assert(data@.subrange(0, data@.len() as int) =~= data@);
    }

    /// Forgets the bytes in use and clears the truncation flag.
    pub fn clear(&mut self)
        requires
            old(self).wf(),
        ensures
            final(self).wf(),
            final(self).spec_len() == 0,
            clean(final(self).used()),
            final(self).spec_buffer() == old(self).spec_buffer(),
            !final(self).spec_truncated(),
    {
        self.length = 0;
        self.truncated = false;
        assert(self.used() =~= Seq::<u8>::empty());
    }
}

} // verus!
