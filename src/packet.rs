//! Group chat version 2 control packets and their wire format.
//!
//! Every packet starts with an envelope of fixed layout, all integers in
//! network byte order:
//! `[kind:1][sender_pk:32][nonce:24][sequence:2][counter_a:2][counter_b:2][counter_c:2]`.
//! A `Status` packet ends with one status byte; a `NicknameV2` packet ends
//! with the UTF-8 bytes of the nickname, which run to the end of the buffer.

use vstd::prelude::*;
use vstd::utf8::*;

verus! {

/// The kind byte of a `Status` packet.
pub const STATUS_KIND: u8 = 0x00;

/// The kind byte of a `NicknameV2` packet.
pub const NICKNAME_V2_KIND: u8 = 0x01;

/// Bytes in the envelope that every packet starts with.
pub const ENVELOPE_SIZE: usize = 65;

/// Bytes in a `Status` packet.
pub const STATUS_SIZE: usize = 66;

/// The most bytes a nickname may take.
pub const MAX_NICKNAME_LENGTH: usize = 128;

/// Why a packet could not be written or read.
#[derive(Clone, Copy, Debug, PartialEq, Eq, Structural)]
pub enum CodecError {
    /// The destination has no room for the whole packet.
    BufferTooSmall,
    /// The bytes are no packet, or a field breaks its bound.
    MalformedPacket,
}

/// The status a peer announces.
#[derive(Clone, Copy, Debug, PartialEq, Eq, Structural)]
pub enum PeerStatusV2 {
    /// Available.
    GsNone,
    /// Away from the keyboard.
    GsAway,
    /// Busy.
    GsBusy,
}

/// A peer announces its status.
#[derive(Clone, Copy, Debug, PartialEq, Eq)]
pub struct Status {
    pub sequence: u16,
    pub sender_pk: [u8; 32],
    pub nonce: [u8; 24],
    pub counter_a: u16,
    pub counter_b: u16,
    pub counter_c: u16,
    pub status: PeerStatusV2,
}

/// A peer changes its display name.
#[derive(Clone, Debug, PartialEq, Eq)]
pub struct NicknameV2 {
    pub sequence: u16,
    pub sender_pk: [u8; 32],
    pub nonce: [u8; 24],
    pub counter_a: u16,
    pub counter_b: u16,
    pub counter_c: u16,
    pub nickname: String,
}

/// Group chat version 2 packet: one of the control messages.
#[derive(Clone, Debug, PartialEq, Eq)]
pub enum Packet {
    Status(Status),
    NicknameV2(NicknameV2),
}

/// A 16-bit integer in network byte order.
pub open spec fn u16_bytes(x: u16) -> Seq<u8> {
    seq![(x / 256) as u8, (x % 256) as u8]
}

/// The envelope bytes.
pub open spec fn envelope_bytes(
    kind: u8,
    sender_pk: [u8; 32],
    nonce: [u8; 24],
    sequence: u16,
    counter_a: u16,
    counter_b: u16,
    counter_c: u16,
) -> Seq<u8> {
    seq![kind] + sender_pk@ + nonce@ + u16_bytes(sequence) + u16_bytes(counter_a) + u16_bytes(
        counter_b,
    ) + u16_bytes(counter_c)
}

/// The byte that stands for a status.
pub open spec fn status_byte(s: PeerStatusV2) -> u8 {
    match s {
        PeerStatusV2::GsNone => 0,
        PeerStatusV2::GsAway => 1,
        PeerStatusV2::GsBusy => 2,
    }
}

/// Whether `b` is a whole `Status` packet.
pub open spec fn is_status_bytes(b: Seq<u8>) -> bool {
    &&& b.len() == STATUS_SIZE
    &&& b[0] == STATUS_KIND
    &&& b[ENVELOPE_SIZE as int] <= 2
}

/// Whether `b` is a whole `NicknameV2` packet.
pub open spec fn is_nickname_v2_bytes(b: Seq<u8>) -> bool {
    &&& ENVELOPE_SIZE <= b.len() <= ENVELOPE_SIZE + MAX_NICKNAME_LENGTH
    &&& b[0] == NICKNAME_V2_KIND
    &&& valid_utf8(b.subrange(ENVELOPE_SIZE as int, b.len() as int))
}

/// Whether `b` is a whole packet of some kind.
pub open spec fn is_packet_bytes(b: Seq<u8>) -> bool {
    is_status_bytes(b) || is_nickname_v2_bytes(b)
}

impl Status {
    /// The bytes of this packet on the wire.
    pub open spec fn spec_bytes(self) -> Seq<u8> {
        envelope_bytes(
            STATUS_KIND,
            self.sender_pk,
            self.nonce,
            self.sequence,
            self.counter_a,
            self.counter_b,
            self.counter_c,
        ) + seq![status_byte(self.status)]
    }

    pub fn new(
        sequence: u16,
        sender_pk: [u8; 32],
        nonce: [u8; 24],
        counter_a: u16,
        counter_b: u16,
        counter_c: u16,
        status: PeerStatusV2,
    ) -> (r: Status)
        ensures
            r == (Status { sequence, sender_pk, nonce, counter_a, counter_b, counter_c, status }),
    {
        Status { sequence, sender_pk, nonce, counter_a, counter_b, counter_c, status }
    }
}

impl NicknameV2 {
    /// The bytes of this packet on the wire.
    pub open spec fn spec_bytes(self) -> Seq<u8> {
        envelope_bytes(
            NICKNAME_V2_KIND,
            self.sender_pk,
            self.nonce,
            self.sequence,
            self.counter_a,
            self.counter_b,
            self.counter_c,
        ) + encode_utf8(self.nickname@)
    }

    /// The nickname is within its bound.
    pub open spec fn wf(self) -> bool {
        encode_utf8(self.nickname@).len() <= MAX_NICKNAME_LENGTH
    }

    pub fn new(
        sequence: u16,
        sender_pk: [u8; 32],
        nonce: [u8; 24],
        counter_a: u16,
        counter_b: u16,
        counter_c: u16,
        nickname: String,
    ) -> (r: NicknameV2)
        ensures
            r.sequence == sequence,
            r.sender_pk == sender_pk,
            r.nonce == nonce,
            r.counter_a == counter_a,
            r.counter_b == counter_b,
            r.counter_c == counter_c,
            r.nickname@ == nickname@,
    {
        NicknameV2 { sequence, sender_pk, nonce, counter_a, counter_b, counter_c, nickname }
    }
}

impl Packet {
    /// The bytes of this packet on the wire.
    pub open spec fn spec_bytes(self) -> Seq<u8> {
        match self {
            Packet::Status(p) => p.spec_bytes(),
            Packet::NicknameV2(p) => p.spec_bytes(),
        }
    }

    /// Every field is within its bound.
    pub open spec fn wf(self) -> bool {
        match self {
            Packet::Status(_) => true,
            Packet::NicknameV2(p) => p.wf(),
        }
    }
}

/// Appends `x` in network byte order.
fn push_u16(out: &mut Vec<u8>, x: u16)
    ensures
        final(out)@ == old(out)@ + u16_bytes(x),
{
    out.push((x / 256) as u8);
    out.push((x % 256) as u8);
    assert(final(out)@ =~= old(out)@ + u16_bytes(x));
}

/// Appends the bytes of `b`.
fn push_bytes(out: &mut Vec<u8>, b: &[u8])
    ensures
        final(out)@ == old(out)@ + b@,
{
    let ghost start = out@;
    let mut i: usize = 0;
    while i < b.len()
        invariant
            i <= b@.len(),
            out@ == start + b@.subrange(0, i as int),
        decreases b@.len() - i,
    {
        out.push(b[i]);
        i = i + 1;
        assert(out@ =~= start + b@.subrange(0, i as int));
    }
    assert(b@.subrange(0, i as int) =~= b@);
}

/// The envelope of a packet, as bytes.
fn envelope_vec(
    kind: u8,
    sender_pk: &[u8; 32],
    nonce: &[u8; 24],
    sequence: u16,
    counter_a: u16,
    counter_b: u16,
    counter_c: u16,
) -> (r: Vec<u8>)
    ensures
        r@ == envelope_bytes(kind, *sender_pk, *nonce, sequence, counter_a, counter_b, counter_c),
{
    let mut out: Vec<u8> = Vec::new();
    out.push(kind);
    push_bytes(&mut out, sender_pk.as_slice());
    push_bytes(&mut out, nonce.as_slice());
    push_u16(&mut out, sequence);
    push_u16(&mut out, counter_a);
    push_u16(&mut out, counter_b);
    push_u16(&mut out, counter_c);
    assert(out@ =~= envelope_bytes(kind, *sender_pk, *nonce, sequence, counter_a, counter_b, counter_c));
    out
}

/// Reads a 16-bit integer in network byte order at `i`.
fn read_u16(buf: &[u8], i: usize) -> (r: u16)
    requires
        i + 2 <= buf@.len(),
    ensures
        u16_bytes(r) == buf@.subrange(i as int, i + 2),
{
    let hi = buf[i];
    let lo = buf[i + 1];
    let r = (hi as u16) * 256 + (lo as u16);
    assert(r / 256 == hi && r % 256 == lo);
    assert(u16_bytes(r) =~= buf@.subrange(i as int, i + 2));
    r
}

/// Reads the 32 bytes at `i`.
fn read_32(buf: &[u8], i: usize) -> (r: [u8; 32])
    requires
        i + 32 <= buf@.len(),
    ensures
        r@ == buf@.subrange(i as int, i + 32),
{
    let mut r = [0u8; 32];
    let mut j: usize = 0;
    while j < 32
        invariant
            j <= 32,
            i + 32 <= buf.len(),
            r@.len() == 32,
            forall|k: int| 0 <= k < j ==> r@[k] == buf@[i + k],
        decreases 32 - j,
    {
        r[j] = buf[i + j];
        j = j + 1;
    }
    assert(r@ =~= buf@.subrange(i as int, i + 32));
    r
}

/// Reads the 24 bytes at `i`.
fn read_24(buf: &[u8], i: usize) -> (r: [u8; 24])
    requires
        i + 24 <= buf@.len(),
    ensures
        r@ == buf@.subrange(i as int, i + 24),
{
    let mut r = [0u8; 24];
    let mut j: usize = 0;
    while j < 24
        invariant
            j <= 24,
            i + 24 <= buf.len(),
            r@.len() == 24,
            forall|k: int| 0 <= k < j ==> r@[k] == buf@[i + k],
        decreases 24 - j,
    {
        r[j] = buf[i + j];
        j = j + 1;
    }
    assert(r@ =~= buf@.subrange(i as int, i + 24));
    r
}

/// The envelope fields of a packet: sender key, nonce, sequence and the three counters.
pub type Envelope = ([u8; 32], [u8; 24], u16, u16, u16, u16);

/// Reads the envelope fields that follow the kind byte.
fn read_envelope(buf: &[u8]) -> (r: Envelope)
    requires
        buf@.len() >= ENVELOPE_SIZE,
    ensures
        envelope_bytes(buf@[0], r.0, r.1, r.2, r.3, r.4, r.5) == buf@.subrange(
            0,
            ENVELOPE_SIZE as int,
        ),
{
    let sender_pk = read_32(buf, 1);
    let nonce = read_24(buf, 33);
    let sequence = read_u16(buf, 57);
    let counter_a = read_u16(buf, 59);
    let counter_b = read_u16(buf, 61);
    let counter_c = read_u16(buf, 63);
    assert(envelope_bytes(buf@[0], sender_pk, nonce, sequence, counter_a, counter_b, counter_c)
        =~= buf@.subrange(0, ENVELOPE_SIZE as int));
    (sender_pk, nonce, sequence, counter_a, counter_b, counter_c)
}

/// `buf` with `bytes` written from `pos` on.
pub open spec fn written(buf: Seq<u8>, pos: int, bytes: Seq<u8>) -> Seq<u8> {
    buf.subrange(0, pos) + bytes + buf.subrange(pos + bytes.len(), buf.len() as int)
}

/// Writes `bytes` into `buf` from `pos` on, and returns the position after them.
fn write_at(buf: &mut [u8], pos: usize, bytes: &Vec<u8>) -> (r: Result<usize, CodecError>)
    ensures
        final(buf)@.len() == old(buf)@.len(),
        match r {
            Ok(end) => pos + bytes@.len() <= old(buf)@.len() && end == pos + bytes@.len()
                && final(buf)@ == written(old(buf)@, pos as int, bytes@),
            Err(e) => e == CodecError::BufferTooSmall && pos + bytes@.len() > old(buf)@.len()
                && final(buf)@ == old(buf)@,
        },
{
    if pos > buf.len() || bytes.len() > buf.len() - pos {
        return Err(CodecError::BufferTooSmall);
    }
    let ghost start = buf@;
    let mut i: usize = 0;
    while i < bytes.len()
        invariant
            i <= bytes@.len(),
            pos + bytes@.len() <= buf.len(),
            buf@.len() == start.len(),
            forall|k: int| 0 <= k < pos ==> buf@[k] == start[k],
            forall|k: int| 0 <= k < i ==> buf@[pos + k] == bytes@[k],
            forall|k: int| pos + i <= k < buf@.len() ==> buf@[k] == start[k],
        decreases bytes@.len() - i,
    {
        buf[pos + i] = bytes[i];
        i = i + 1;
    }
    let end = pos + bytes.len();
    assert(buf@ =~= written(start, pos as int, bytes@));
    Ok(end)
}

/// Relies on `std::str::from_utf8`: it accepts exactly the valid UTF-8 byte
/// strings, and the text it returns has those bytes.
#[verifier::external_body]
fn utf8_str(b: &[u8]) -> (r: Option<&str>)
    ensures
        match r {
            Some(s) => encode_utf8(s@) == b@,
            None => !valid_utf8(b@),
        },
{
    std::str::from_utf8(b).ok()
}

impl Status {
    /// The bytes of this packet.
    fn to_vec(&self) -> (r: Vec<u8>)
        ensures
            r@ == self.spec_bytes(),
    {
        let mut out = envelope_vec(
            STATUS_KIND,
            &self.sender_pk,
            &self.nonce,
            self.sequence,
            self.counter_a,
            self.counter_b,
            self.counter_c,
        );
        let b: u8 = match self.status {
            PeerStatusV2::GsNone => 0,
            PeerStatusV2::GsAway => 1,
            PeerStatusV2::GsBusy => 2,
        };
        out.push(b);
        out
    }

    /// Writes this packet into `buf` from `pos` on, and returns the position after it.
    pub fn to_bytes(&self, buf: &mut [u8], pos: usize) -> (r: Result<usize, CodecError>)
        ensures
            final(buf)@.len() == old(buf)@.len(),
            match r {
                Ok(end) => pos + self.spec_bytes().len() <= old(buf)@.len() && end == pos
                    + self.spec_bytes().len() && final(buf)@ == written(
                    old(buf)@,
                    pos as int,
                    self.spec_bytes(),
                ),
                Err(e) => e == CodecError::BufferTooSmall && pos + self.spec_bytes().len() > old(
                    buf,
                )@.len() && final(buf)@ == old(buf)@,
            },
    {
        let bytes = self.to_vec();
        write_at(buf, pos, &bytes)
    }

    /// Reads a whole `Status` packet.
    pub fn from_bytes(buf: &[u8]) -> (r: Option<Status>)
        ensures
            r is Some <==> is_status_bytes(buf@),
            match r {
                Some(p) => p.spec_bytes() == buf@,
                None => true,
            },
    {
        if buf.len() != STATUS_SIZE || buf[0] != STATUS_KIND {
            return None;
        }
        let status = match buf[ENVELOPE_SIZE] {
            0 => PeerStatusV2::GsNone,
            1 => PeerStatusV2::GsAway,
            2 => PeerStatusV2::GsBusy,
            _ => {
                return None;
            },
        };
        let (sender_pk, nonce, sequence, counter_a, counter_b, counter_c) = read_envelope(buf);
        let p = Status { sequence, sender_pk, nonce, counter_a, counter_b, counter_c, status };
        assert(p.spec_bytes() =~= buf@.subrange(0, ENVELOPE_SIZE as int) + seq![buf@[ENVELOPE_SIZE as int]]);
        assert(buf@ =~= buf@.subrange(0, ENVELOPE_SIZE as int) + seq![buf@[ENVELOPE_SIZE as int]]);
        Some(p)
    }
}

impl NicknameV2 {
    /// The bytes of this packet.
    fn to_vec(&self) -> (r: Vec<u8>)
        ensures
            r@ == self.spec_bytes(),
    {
        let mut out = envelope_vec(
            NICKNAME_V2_KIND,
            &self.sender_pk,
            &self.nonce,
            self.sequence,
            self.counter_a,
            self.counter_b,
            self.counter_c,
        );
        push_bytes(&mut out, self.nickname.as_str().as_bytes());
        out
    }

    /// Writes this packet into `buf` from `pos` on, and returns the position
    /// after it. An overlong nickname is refused.
    pub fn to_bytes(&self, buf: &mut [u8], pos: usize) -> (r: Result<usize, CodecError>)
        ensures
            final(buf)@.len() == old(buf)@.len(),
            match r {
                Ok(end) => self.wf() && pos + self.spec_bytes().len() <= old(buf)@.len() && end
                    == pos + self.spec_bytes().len() && final(buf)@ == written(
                    old(buf)@,
                    pos as int,
                    self.spec_bytes(),
                ),
                Err(e) => final(buf)@ == old(buf)@ && (if self.wf() {
                    e == CodecError::BufferTooSmall && pos + self.spec_bytes().len() > old(
                        buf,
                    )@.len()
                } else {
                    e == CodecError::MalformedPacket
                }),
            },
    {
        let bytes = self.to_vec();
        if bytes.len() - ENVELOPE_SIZE > MAX_NICKNAME_LENGTH {
            return Err(CodecError::MalformedPacket);
        }
        write_at(buf, pos, &bytes)
    }

    /// Reads a whole `NicknameV2` packet.
    pub fn from_bytes(buf: &[u8]) -> (r: Option<NicknameV2>)
        ensures
            r is Some <==> is_nickname_v2_bytes(buf@),
            match r {
                Some(p) => p.wf() && p.spec_bytes() == buf@,
                None => true,
            },
    {
        if buf.len() < ENVELOPE_SIZE || buf.len() - ENVELOPE_SIZE > MAX_NICKNAME_LENGTH
            || buf[0] != NICKNAME_V2_KIND {
            return None;
        }
        let tail = &buf[ENVELOPE_SIZE..buf.len()];
        assert(tail@ == buf@.subrange(ENVELOPE_SIZE as int, buf@.len() as int));
        match utf8_str(tail) {
            Some(s) => {
                proof {
                    encode_utf8_valid_utf8(s@);
                }
                let nickname = s.to_owned();
                let (sender_pk, nonce, sequence, counter_a, counter_b, counter_c) = read_envelope(
                    buf,
                );
                let p = NicknameV2 {
                    sequence,
                    sender_pk,
                    nonce,
                    counter_a,
                    counter_b,
                    counter_c,
                    nickname,
                };
                assert(buf@ =~= buf@.subrange(0, ENVELOPE_SIZE as int) + tail@);
                Some(p)
            },
            None => None,
        }
    }
}

impl Packet {
    /// Writes this packet into `buf` from `pos` on, and returns the position
    /// after it.
    pub fn to_bytes(&self, buf: &mut [u8], pos: usize) -> (r: Result<usize, CodecError>)
        ensures
            final(buf)@.len() == old(buf)@.len(),
            r is Ok <==> self.wf() && pos + self.spec_bytes().len() <= old(buf)@.len(),
            match r {
                Ok(end) => end == pos + self.spec_bytes().len() && final(buf)@ == written(
                    old(buf)@,
                    pos as int,
                    self.spec_bytes(),
                ),
                Err(e) => final(buf)@ == old(buf)@ && (if self.wf() {
                    e == CodecError::BufferTooSmall
                } else {
                    e == CodecError::MalformedPacket
                }),
            },
    {
        match self {
            Packet::Status(p) => p.to_bytes(buf, pos),
            Packet::NicknameV2(p) => p.to_bytes(buf, pos),
        }
    }

    /// Reads a whole packet: a `Status` if the bytes are one, else a
    /// `NicknameV2` if they are one.
    pub fn from_bytes(buf: &[u8]) -> (r: Result<Packet, CodecError>)
        ensures
            r is Ok <==> is_packet_bytes(buf@),
            match r {
                Ok(p) => p.wf() && p.spec_bytes() == buf@ && (p is Status <==> is_status_bytes(
                    buf@,
                )),
                Err(e) => e == CodecError::MalformedPacket,
            },
    {
        match Status::from_bytes(buf) {
            Some(p) => Ok(Packet::Status(p)),
            None => match NicknameV2::from_bytes(buf) {
                Some(p) => Ok(Packet::NicknameV2(p)),
                None => Err(CodecError::MalformedPacket),
            },
        }
    }
}

/// Whether two packets carry the same fields.
pub open spec fn same_packet(p: Packet, q: Packet) -> bool {
    match (p, q) {
        (Packet::Status(a), Packet::Status(b)) => a == b,
        (Packet::NicknameV2(a), Packet::NicknameV2(b)) => {
            &&& a.sequence == b.sequence
            &&& a.sender_pk == b.sender_pk
            &&& a.nonce == b.nonce
            &&& a.counter_a == b.counter_a
            &&& a.counter_b == b.counter_b
            &&& a.counter_c == b.counter_c
            &&& a.nickname@ == b.nickname@
        },
        _ => false,
    }
}

proof fn lemma_u16_bytes_injective(x: u16, y: u16)
    requires
        u16_bytes(x) == u16_bytes(y),
    ensures
        x == y,
{
    assert(u16_bytes(x)[0] == u16_bytes(y)[0]);
    assert(u16_bytes(x)[1] == u16_bytes(y)[1]);
}

proof fn lemma_envelope_injective(
    k1: u8, pk1: [u8; 32], n1: [u8; 24], s1: u16, a1: u16, b1: u16, c1: u16,
    k2: u8, pk2: [u8; 32], n2: [u8; 24], s2: u16, a2: u16, b2: u16, c2: u16,
    t1: Seq<u8>, t2: Seq<u8>,
)
    requires
        envelope_bytes(k1, pk1, n1, s1, a1, b1, c1) + t1 == envelope_bytes(k2, pk2, n2, s2, a2, b2, c2) + t2,
    ensures
        k1 == k2 && pk1 == pk2 && n1 == n2 && s1 == s2 && a1 == a2 && b1 == b2 && c1 == c2,
        t1 == t2,
{
    let e1 = envelope_bytes(k1, pk1, n1, s1, a1, b1, c1) + t1;
    let e2 = envelope_bytes(k2, pk2, n2, s2, a2, b2, c2) + t2;
    assert(e1[0] == k1 && e2[0] == k2);
    assert(pk1@ =~= e1.subrange(1, 33));
    assert(pk2@ =~= e2.subrange(1, 33));
    assert(pk1 =~= pk2);
    assert(n1@ =~= e1.subrange(33, 57));
    assert(n2@ =~= e2.subrange(33, 57));
    assert(n1 =~= n2);
    assert(u16_bytes(s1) =~= e1.subrange(57, 59) && u16_bytes(s2) =~= e2.subrange(57, 59));
    lemma_u16_bytes_injective(s1, s2);
    assert(u16_bytes(a1) =~= e1.subrange(59, 61) && u16_bytes(a2) =~= e2.subrange(59, 61));
    lemma_u16_bytes_injective(a1, a2);
    assert(u16_bytes(b1) =~= e1.subrange(61, 63) && u16_bytes(b2) =~= e2.subrange(61, 63));
    lemma_u16_bytes_injective(b1, b2);
    assert(u16_bytes(c1) =~= e1.subrange(63, 65) && u16_bytes(c2) =~= e2.subrange(63, 65));
    lemma_u16_bytes_injective(c1, c2);
    assert(t1 =~= e1.subrange(65, e1.len() as int));
    assert(t2 =~= e2.subrange(65, e2.len() as int));
}

/// Round trip: the bytes of a well-formed packet read back as a packet, and
/// a well-formed packet with the same bytes carries the same fields, so that
/// reading what was written gives back the packet written.
pub proof fn lemma_round_trip(p: Packet, q: Packet)
    requires
        p.wf(),
        q.wf(),
    ensures
        is_packet_bytes(p.spec_bytes()),
        q.spec_bytes() == p.spec_bytes() ==> same_packet(p, q),
{
    broadcast use encode_utf8_valid_utf8, encode_utf8_decode_utf8;

    match p {
        Packet::Status(a) => {
            let b = a.spec_bytes();
            assert(b[0] == STATUS_KIND);
            assert(b[ENVELOPE_SIZE as int] == status_byte(a.status));
        },
        Packet::NicknameV2(a) => {
            let b = a.spec_bytes();
            let e = envelope_bytes(
                NICKNAME_V2_KIND, a.sender_pk, a.nonce, a.sequence, a.counter_a, a.counter_b, a.counter_c,
            );
            assert(b[0] == NICKNAME_V2_KIND);
            assert(b.subrange(ENVELOPE_SIZE as int, b.len() as int) =~= encode_utf8(a.nickname@));
        },
    }
    if q.spec_bytes() == p.spec_bytes() {
        match (p, q) {
            (Packet::Status(a), Packet::Status(b)) => {
                lemma_envelope_injective(
                    STATUS_KIND, a.sender_pk, a.nonce, a.sequence, a.counter_a, a.counter_b, a.counter_c,
                    STATUS_KIND, b.sender_pk, b.nonce, b.sequence, b.counter_a, b.counter_b, b.counter_c,
                    seq![status_byte(a.status)], seq![status_byte(b.status)],
                );
                assert(status_byte(a.status) == seq![status_byte(b.status)][0]);
            },
            (Packet::NicknameV2(a), Packet::NicknameV2(b)) => {
                lemma_envelope_injective(
                    NICKNAME_V2_KIND, a.sender_pk, a.nonce, a.sequence, a.counter_a, a.counter_b, a.counter_c,
                    NICKNAME_V2_KIND, b.sender_pk, b.nonce, b.sequence, b.counter_a, b.counter_b, b.counter_c,
                    encode_utf8(a.nickname@), encode_utf8(b.nickname@),
                );
                assert(decode_utf8(encode_utf8(a.nickname@)) == a.nickname@);
                assert(decode_utf8(encode_utf8(b.nickname@)) == b.nickname@);
            },
            (Packet::Status(a), Packet::NicknameV2(b)) => {
                assert(p.spec_bytes()[0] == STATUS_KIND);
                assert(q.spec_bytes()[0] == NICKNAME_V2_KIND);
            },
            (Packet::NicknameV2(a), Packet::Status(b)) => {
                assert(p.spec_bytes()[0] == NICKNAME_V2_KIND);
                assert(q.spec_bytes()[0] == STATUS_KIND);
            },
        }
    }
}

/// A buffer shorter than the envelope is no packet.
pub proof fn lemma_short_buffer_is_malformed(b: Seq<u8>)
    requires
        b.len() < ENVELOPE_SIZE,
    ensures
        !is_packet_bytes(b),
{
}

/// No bytes are both a `Status` and a `NicknameV2` packet.
pub proof fn lemma_kinds_disjoint(b: Seq<u8>)
    ensures
        !(is_status_bytes(b) && is_nickname_v2_bytes(b)),
{
}

} // verus!
