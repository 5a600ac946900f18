//! The wire format of a datagram.
//!
//! A packet is a fixed 11-byte header followed by one or more channel
//! blocks. The header carries `packet_id`, `last_ack_packet_id`, a 32-bit
//! ack bitfield, the sender's current tick (all little-endian) and the
//! number of channel blocks. Each block carries a compact channel id and
//! a message count (both varints), then its messages: a flags byte
//! (bit 0: the message carries an id, bit 1: it is a fragment), the
//! optional id, the optional fragment index and total, the payload length
//! as a varint, and the payload bytes.
//!
//! Every field is specified twice: a spec-level byte image (`..._bytes`)
//! and a spec-level parser (`parse_...`). The executable encoder produces
//! exactly the byte image; the executable decoder returns exactly what the
//! spec parser returns; and the round-trip lemmas show that parsing an
//! image yields the value it was made from.

use vstd::prelude::*;

verus! {

/// Default maximum datagram size in bytes.
pub const MTU: usize = 1200;

/// Fixed size of the packet header in bytes.
pub const HEADER_BYTES: usize = 11;

/// Largest payload slice a single fragment may carry: the MTU less a
/// budget for header and framing overhead.
pub const MAX_FRAG: usize = 1168;

// ---------------------------------------------------------------------
// Little-endian integers
// ---------------------------------------------------------------------

/// Byte image of a `u16`, little-endian.
pub open spec fn u16_le_bytes(v: u16) -> Seq<u8> {
    seq![(v % 0x100) as u8, (v / 0x100) as u8]
}

/// Byte image of a `u32`, little-endian.
pub open spec fn u32_le_bytes(v: u32) -> Seq<u8> {
    seq![
        (v % 0x100) as u8,
        ((v / 0x100) % 0x100) as u8,
        ((v / 0x10000) % 0x100) as u8,
        (v / 0x1000000) as u8,
    ]
}

/// The value a little-endian pair of bytes denotes.
pub open spec fn u16_of_le(b0: u8, b1: u8) -> u16 {
    (b0 + b1 * 0x100) as u16
}

/// The value a little-endian quadruple of bytes denotes.
pub open spec fn u32_of_le(b0: u8, b1: u8, b2: u8, b3: u8) -> u32 {
    (b0 + b1 * 0x100 + b2 * 0x10000 + b3 * 0x1000000) as u32
}

/// Reading back the two bytes of a `u16` image yields the value.
pub proof fn lemma_u16_le_round_trip(v: u16)
    ensures
        u16_of_le(u16_le_bytes(v)[0], u16_le_bytes(v)[1]) == v,
{
    assert(v % 0x100 + (v / 0x100) * 0x100 == v) by (nonlinear_arith);
}

/// Reading back the four bytes of a `u32` image yields the value.
pub proof fn lemma_u32_le_round_trip(v: u32)
    ensures
        u32_of_le(
            u32_le_bytes(v)[0],
            u32_le_bytes(v)[1],
            u32_le_bytes(v)[2],
            u32_le_bytes(v)[3],
        ) == v,
{
    assert(v % 0x100 + ((v / 0x100) % 0x100) * 0x100 + ((v / 0x10000) % 0x100) * 0x10000 + (v
        / 0x1000000) * 0x1000000 == v) by (nonlinear_arith);
}

/// Append the little-endian image of a `u16`.
pub fn write_u16_le(out: &mut Vec<u8>, v: u16)
    ensures
        final(out)@ == old(out)@ + u16_le_bytes(v),
{
    out.push((v % 0x100) as u8);
    out.push((v / 0x100) as u8);
    proof {
        assert(out@ =~= old(out)@ + u16_le_bytes(v));
    }
}

/// Append the little-endian image of a `u32`.
pub fn write_u32_le(out: &mut Vec<u8>, v: u32)
    ensures
        final(out)@ == old(out)@ + u32_le_bytes(v),
{
    out.push((v % 0x100) as u8);
    out.push(((v / 0x100) % 0x100) as u8);
    out.push(((v / 0x10000) % 0x100) as u8);
    out.push((v / 0x1000000) as u8);
    proof {
        assert(out@ =~= old(out)@ + u32_le_bytes(v));
    }
}

/// Read a little-endian `u16` at `pos`.
pub fn read_u16_le(buf: &Vec<u8>, pos: usize) -> (r: u16)
    requires
        pos + 2 <= buf@.len(),
    ensures
        r == u16_of_le(buf@[pos as int], buf@[pos as int + 1]),
{
    let n = buf.len();
    assert(pos + 2 <= n);
    let b0 = buf[pos];
    let b1 = buf[pos + 1];
    b0 as u16 + b1 as u16 * 0x100
}

/// Read a little-endian `u32` at `pos`.
pub fn read_u32_le(buf: &Vec<u8>, pos: usize) -> (r: u32)
    requires
        pos + 4 <= buf@.len(),
    ensures
        r == u32_of_le(
            buf@[pos as int],
            buf@[pos as int + 1],
            buf@[pos as int + 2],
            buf@[pos as int + 3],
        ),
{
    let n = buf.len();
    assert(pos + 4 <= n);
    let b0 = buf[pos];
    let b1 = buf[pos + 1];
    let b2 = buf[pos + 2];
    let b3 = buf[pos + 3];
    b0 as u32 + b1 as u32 * 0x100 + b2 as u32 * 0x10000 + b3 as u32 * 0x1000000
}

// ---------------------------------------------------------------------
// Varints
// ---------------------------------------------------------------------
//
// Channel ids, message counts and payload lengths are 16-bit values
// written as base-128 varints, low group first, high bit of each byte
// marking continuation: one byte below 0x80, two below 0x4000, else
// three. The parser accepts only the canonical image (no zero-valued
// final group), so each value has exactly one image and images are
// prefix-free.

/// Canonical varint image of a 16-bit value.
pub open spec fn varint_bytes(v: u16) -> Seq<u8> {
    if v < 0x80 {
        seq![v as u8]
    } else if v < 0x4000 {
        seq![(v % 0x80 + 0x80) as u8, (v / 0x80) as u8]
    } else {
        seq![(v % 0x80 + 0x80) as u8, ((v / 0x80) % 0x80 + 0x80) as u8, (v / 0x4000) as u8]
    }
}

/// Parse a varint at the front of `s`: the value and the bytes consumed,
/// or `None` when `s` holds no canonical 16-bit varint image.
pub open spec fn parse_varint(s: Seq<u8>) -> Option<(u16, int)> {
    if s.len() >= 1 && s[0] < 0x80 {
        Some((s[0] as u16, 1))
    } else if s.len() >= 2 && s[0] >= 0x80 && s[1] < 0x80 {
        if s[1] == 0 {
            None
        } else {
            Some((((s[0] - 0x80) + s[1] * 0x80) as u16, 2))
        }
    } else if s.len() >= 3 && s[0] >= 0x80 && s[1] >= 0x80 && s[2] < 0x80 {
        if s[2] == 0 || s[2] > 3 {
            None
        } else {
            Some((((s[0] - 0x80) + (s[1] - 0x80) * 0x80 + s[2] * 0x4000) as u16, 3))
        }
    } else {
        None
    }
}

/// Parsing a varint image followed by anything yields the value back.
pub proof fn lemma_varint_round_trip(v: u16, rest: Seq<u8>)
    ensures
        parse_varint(varint_bytes(v) + rest) == Some((v, varint_bytes(v).len() as int)),
{
    let s = varint_bytes(v) + rest;
    if v < 0x80 {
        assert(s[0] == v as u8);
    } else if v < 0x4000 {
        assert(s[0] == (v % 0x80 + 0x80) as u8);
        assert(s[1] == (v / 0x80) as u8);
        assert(v / 0x80 >= 1);
        assert((v % 0x80) + (v / 0x80) * 0x80 == v) by (nonlinear_arith);
    } else {
        assert(s[0] == (v % 0x80 + 0x80) as u8);
        assert(s[1] == ((v / 0x80) % 0x80 + 0x80) as u8);
        assert(s[2] == (v / 0x4000) as u8);
        assert(v / 0x4000 >= 1 && v / 0x4000 <= 3) by (nonlinear_arith)
            requires 0x4000 <= v < 0x10000;
        assert((v % 0x80) + ((v / 0x80) % 0x80) * 0x80 + (v / 0x4000) * 0x4000 == v)
            by (nonlinear_arith);
    }
}

/// Append the canonical varint image of `v`.
pub fn write_varint(out: &mut Vec<u8>, v: u16)
    ensures
        final(out)@ == old(out)@ + varint_bytes(v),
{
    if v < 0x80 {
        out.push(v as u8);
        proof {
            assert(out@ =~= old(out)@ + varint_bytes(v));
        }
    } else if v < 0x4000 {
        out.push((v % 0x80 + 0x80) as u8);
        out.push((v / 0x80) as u8);
        proof {
            assert(out@ =~= old(out)@ + varint_bytes(v));
        }
    } else {
        out.push((v % 0x80 + 0x80) as u8);
        out.push(((v / 0x80) % 0x80 + 0x80) as u8);
        out.push((v / 0x4000) as u8);
        proof {
            assert(out@ =~= old(out)@ + varint_bytes(v));
        }
    }
}

/// Decode a varint at `pos`; returns the value and the position after it,
/// exactly when the spec parser accepts the bytes from `pos` on.
pub fn read_varint(buf: &Vec<u8>, pos: usize) -> (r: Option<(u16, usize)>)
    requires
        pos <= buf@.len(),
    ensures
        match r {
            Some((v, newpos)) => {
                &&& parse_varint(buf@.skip(pos as int)) == Some((v, newpos - pos))
                &&& pos < newpos <= buf@.len()
            },
            None => parse_varint(buf@.skip(pos as int)) is None,
        },
{
    let ghost s = buf@.skip(pos as int);
    let remaining = buf.len() - pos;
    if remaining >= 1 && buf[pos] < 0x80 {
        proof {
            assert(s[0] == buf@[pos as int]);
        }
        return Some((buf[pos] as u16, pos + 1));
    }
    if remaining >= 2 && buf[pos] >= 0x80 && buf[pos + 1] < 0x80 {
        proof {
            assert(s[0] == buf@[pos as int]);
            assert(s[1] == buf@[pos as int + 1]);
        }
        if buf[pos + 1] == 0 {
            return None;
        }
        let v: u16 = (buf[pos] - 0x80) as u16 + buf[pos + 1] as u16 * 0x80;
        return Some((v, pos + 2));
    }
    if remaining >= 3 && buf[pos] >= 0x80 && buf[pos + 1] >= 0x80 && buf[pos + 2] < 0x80 {
        proof {
            assert(s[0] == buf@[pos as int]);
            assert(s[1] == buf@[pos as int + 1]);
            assert(s[2] == buf@[pos as int + 2]);
        }
        if buf[pos + 2] == 0 || buf[pos + 2] > 3 {
            return None;
        }
        let v: u16 = (buf[pos] - 0x80) as u16 + (buf[pos + 1] - 0x80) as u16 * 0x80 + buf[pos
            + 2] as u16 * 0x4000;
        return Some((v, pos + 3));
    }
    proof {
        if s.len() >= 1 {
            assert(s[0] == buf@[pos as int]);
        }
        if s.len() >= 2 {
            assert(s[1] == buf@[pos as int + 1]);
        }
        if s.len() >= 3 {
            assert(s[2] == buf@[pos as int + 2]);
        }
    }
    None
}

// ---------------------------------------------------------------------
// Framed messages
// ---------------------------------------------------------------------

/// A message as it stands inside a channel block: an optional message id,
/// an optional fragment index and total, and the payload bytes.
pub struct WireMessage {
    pub id: Option<u16>,
    pub fragment: Option<(u16, u16)>,
    pub payload: Vec<u8>,
}

/// The mathematical value of a framed message.
pub struct WireMessageView {
    pub id: Option<u16>,
    pub fragment: Option<(u16, u16)>,
    pub payload: Seq<u8>,
}

impl View for WireMessage {
    type V = WireMessageView;

    open spec fn view(&self) -> WireMessageView {
        WireMessageView { id: self.id, fragment: self.fragment, payload: self.payload@ }
    }
}

/// A framed message is encodable: its payload length fits the varint.
pub open spec fn wm_wf(m: WireMessageView) -> bool {
    m.payload.len() <= 0xffff
}

/// The flags byte of a framed message.
pub open spec fn wm_flags(m: WireMessageView) -> u8 {
    ((if m.id is Some { 1int } else { 0 }) + (if m.fragment is Some { 2int } else { 0 })) as u8
}

/// Byte image of a framed message.
pub open spec fn message_bytes(m: WireMessageView) -> Seq<u8> {
    seq![wm_flags(m)] + (match m.id {
        Some(id) => u16_le_bytes(id),
        None => Seq::<u8>::empty(),
    }) + (match m.fragment {
        Some((index, total)) => u16_le_bytes(index) + u16_le_bytes(total),
        None => Seq::<u8>::empty(),
    }) + varint_bytes(m.payload.len() as u16) + m.payload
}

/// Parse one framed message at the front of `s`: the message and the
/// bytes consumed, or `None` when `s` does not start with a well-formed
/// message image.
pub open spec fn parse_message(s: Seq<u8>) -> Option<(WireMessageView, int)> {
    if s.len() < 1 || s[0] > 3 {
        None
    } else {
        let has_id = s[0] == 1 || s[0] == 3;
        let is_frag = s[0] == 2 || s[0] == 3;
        let id_len: int = if has_id { 2 } else { 0 };
        let frag_len: int = if is_frag { 4 } else { 0 };
        let len_pos = 1 + id_len + frag_len;
        if s.len() < len_pos {
            None
        } else {
            match parse_varint(s.skip(len_pos)) {
                None => None,
                Some((plen, vlen)) => {
                    let body_pos = len_pos + vlen;
                    if s.len() < body_pos + plen {
                        None
                    } else {
                        Some(
                            (
                                WireMessageView {
                                    id: if has_id {
                                        Some(u16_of_le(s[1], s[2]))
                                    } else {
                                        None
                                    },
                                    fragment: if is_frag {
                                        Some(
                                            (
                                                u16_of_le(s[1 + id_len], s[2 + id_len]),
                                                u16_of_le(s[3 + id_len], s[4 + id_len]),
                                            ),
                                        )
                                    } else {
                                        None
                                    },
                                    payload: s.subrange(body_pos, body_pos + plen),
                                },
                                body_pos + plen,
                            ),
                        )
                    }
                },
            }
        }
    }
}

/// Parsing a message image followed by anything yields the message back.
#[verifier::rlimit(100)]
#[verifier::spinoff_prover]
pub proof fn lemma_message_round_trip(m: WireMessageView, rest: Seq<u8>)
    requires
        wm_wf(m),
    ensures
        parse_message(message_bytes(m) + rest) == Some((m, message_bytes(m).len() as int)),
{
    let s = message_bytes(m) + rest;
    let id_len: int = if m.id is Some { 2 } else { 0 };
    let frag_len: int = if m.fragment is Some { 4 } else { 0 };
    let len_pos = 1 + id_len + frag_len;
    let vb = varint_bytes(m.payload.len() as u16);
    assert(s[0] == wm_flags(m));
    match m.id {
        Some(id) => {
            assert(s[1] == u16_le_bytes(id)[0]);
            assert(s[2] == u16_le_bytes(id)[1]);
            lemma_u16_le_round_trip(id);
        },
        None => {},
    }
    match m.fragment {
        Some((index, total)) => {
            assert(s[1 + id_len] == u16_le_bytes(index)[0]);
            assert(s[2 + id_len] == u16_le_bytes(index)[1]);
            assert(s[3 + id_len] == u16_le_bytes(total)[0]);
            assert(s[4 + id_len] == u16_le_bytes(total)[1]);
            lemma_u16_le_round_trip(index);
            lemma_u16_le_round_trip(total);
        },
        None => {},
    }
    assert(s.skip(len_pos) =~= vb + (m.payload + rest));
    lemma_varint_round_trip(m.payload.len() as u16, m.payload + rest);
    let body_pos = len_pos + vb.len();
    assert(s.subrange(body_pos as int, body_pos + m.payload.len()) =~= m.payload);
    match parse_message(s) {
        Some((m2, used)) => {
            assert(m2.payload =~= m.payload);
            assert(m2 == m);
        },
        None => {
            assert(false);
        },
    }
}

/// Append the image of a framed message.
pub fn write_message(out: &mut Vec<u8>, m: &WireMessage)
    requires
        wm_wf(m@),
    ensures
        final(out)@ == old(out)@ + message_bytes(m@),
{
    let flags: u8 = (if m.id.is_some() { 1u8 } else { 0u8 }) + (if m.fragment.is_some() {
        2u8
    } else {
        0u8
    });
    out.push(flags);
    match &m.id {
        Some(id) => write_u16_le(out, *id),
        None => {},
    }
    match &m.fragment {
        Some(f) => {
            write_u16_le(out, f.0);
            write_u16_le(out, f.1);
        },
        None => {},
    }
    write_varint(out, m.payload.len() as u16);
    let mut i: usize = 0;
    let n = m.payload.len();
    let ghost before = out@;
    while i < n
        invariant
            n == m.payload@.len(),
            i <= n,
            out@ == before + m.payload@.subrange(0, i as int),
        decreases n - i,
    {
        out.push(m.payload[i]);
        proof {
            assert(out@ =~= before + m.payload@.subrange(0, i + 1));
        }
        i += 1;
    }
    proof {
        assert(m.payload@.subrange(0, n as int) =~= m.payload@);
        assert(out@ =~= old(out)@ + message_bytes(m@));
    }
}

/// Decode one framed message at `pos`; agrees exactly with the spec
/// parser applied to the bytes from `pos` on.
pub fn read_message(buf: &Vec<u8>, pos: usize) -> (r: Option<(WireMessage, usize)>)
    requires
        pos <= buf@.len(),
    ensures
        match r {
            Some((m, newpos)) => {
                &&& parse_message(buf@.skip(pos as int)) == Some((m@, newpos - pos))
                &&& pos < newpos <= buf@.len()
            },
            None => parse_message(buf@.skip(pos as int)) is None,
        },
{
    let ghost s = buf@.skip(pos as int);
    let n = buf.len();
    let remaining = n - pos;
    if remaining < 1 {
        return None;
    }
    proof {
        assert(s[0] == buf@[pos as int]);
    }
    let flags = buf[pos];
    if flags > 3 {
        return None;
    }
    let has_id = flags == 1 || flags == 3;
    let is_frag = flags == 2 || flags == 3;
    let id_len: usize = if has_id { 2 } else { 0 };
    let frag_len: usize = if is_frag { 4 } else { 0 };
    let len_pos: usize = 1 + id_len + frag_len;
    if remaining < len_pos {
        return None;
    }
    let id: Option<u16> = if has_id {
        proof {
            assert(s[1] == buf@[pos as int + 1]);
            assert(s[2] == buf@[pos as int + 2]);
        }
        Some(read_u16_le(buf, pos + 1))
    } else {
        None
    };
    let fragment: Option<(u16, u16)> = if is_frag {
        proof {
            assert(s[1 + id_len] == buf@[pos + 1 + id_len]);
            assert(s[2 + id_len] == buf@[pos + 2 + id_len]);
            assert(s[3 + id_len] == buf@[pos + 3 + id_len]);
            assert(s[4 + id_len] == buf@[pos + 4 + id_len]);
        }
        Some((read_u16_le(buf, pos + 1 + id_len), read_u16_le(buf, pos + 3 + id_len)))
    } else {
        None
    };
    proof {
        assert(s.skip(len_pos as int) =~= buf@.skip(pos + len_pos as int));
    }
    let (plen, vend) = match read_varint(buf, pos + len_pos) {
        Some(r) => r,
        None => {
            return None;
        },
    };
    if n - vend < plen as usize {
        return None;
    }
    let mut payload: Vec<u8> = Vec::new();
    let mut i: usize = 0;
    while i < plen as usize
        invariant
            n == buf@.len(),
            vend + plen as int <= n,
            i <= plen,
            payload@ == buf@.subrange(vend as int, vend + i as int),
        decreases plen - i,
    {
        payload.push(buf[vend + i]);
        proof {
            assert(payload@ =~= buf@.subrange(vend as int, vend + i + 1));
        }
        i += 1;
    }
    let newpos = vend + plen as usize;
    let m = WireMessage { id, fragment, payload };
    proof {
        let body_pos = (len_pos + (vend - (pos + len_pos))) as int;
        assert(s.subrange(body_pos, body_pos + plen) =~= buf@.subrange(
            vend as int,
            vend + plen as int,
        ));
        assert(parse_message(s) == Some((m@, newpos - pos as int)));
    }
    Some((m, newpos))
}

// ---------------------------------------------------------------------
// The packet header
// ---------------------------------------------------------------------

/// The fixed 11-byte packet header.
#[derive(Clone, Copy, Debug, PartialEq, Eq, Structural)]
pub struct PacketHeader {
    pub packet_id: u16,
    pub last_ack_packet_id: u16,
    pub ack_bitfield: u32,
    pub tick: u16,
    pub channel_count: u8,
}

/// Byte image of the header.
pub open spec fn header_bytes(h: PacketHeader) -> Seq<u8> {
    u16_le_bytes(h.packet_id) + u16_le_bytes(h.last_ack_packet_id) + u32_le_bytes(h.ack_bitfield)
        + u16_le_bytes(h.tick) + seq![h.channel_count]
}

/// Parse the header at the front of `s`.
pub open spec fn parse_header(s: Seq<u8>) -> Option<PacketHeader> {
    if s.len() < 11 {
        None
    } else {
        Some(
            PacketHeader {
                packet_id: u16_of_le(s[0], s[1]),
                last_ack_packet_id: u16_of_le(s[2], s[3]),
                ack_bitfield: u32_of_le(s[4], s[5], s[6], s[7]),
                tick: u16_of_le(s[8], s[9]),
                channel_count: s[10],
            },
        )
    }
}

/// Parsing a header image followed by anything yields the header back.
pub proof fn lemma_header_round_trip(h: PacketHeader, rest: Seq<u8>)
    ensures
        parse_header(header_bytes(h) + rest) == Some(h),
        header_bytes(h).len() == 11,
{
    lemma_u16_le_round_trip(h.packet_id);
    lemma_u16_le_round_trip(h.last_ack_packet_id);
    lemma_u32_le_round_trip(h.ack_bitfield);
    lemma_u16_le_round_trip(h.tick);
    let s = header_bytes(h) + rest;
    assert(s[0] == u16_le_bytes(h.packet_id)[0]);
    assert(s[1] == u16_le_bytes(h.packet_id)[1]);
    assert(s[2] == u16_le_bytes(h.last_ack_packet_id)[0]);
    assert(s[3] == u16_le_bytes(h.last_ack_packet_id)[1]);
    assert(s[4] == u32_le_bytes(h.ack_bitfield)[0]);
    assert(s[5] == u32_le_bytes(h.ack_bitfield)[1]);
    assert(s[6] == u32_le_bytes(h.ack_bitfield)[2]);
    assert(s[7] == u32_le_bytes(h.ack_bitfield)[3]);
    assert(s[8] == u16_le_bytes(h.tick)[0]);
    assert(s[9] == u16_le_bytes(h.tick)[1]);
    assert(s[10] == h.channel_count);
}

/// Append the header image.
pub fn write_header(out: &mut Vec<u8>, h: &PacketHeader)
    ensures
        final(out)@ == old(out)@ + header_bytes(*h),
{
    write_u16_le(out, h.packet_id);
    write_u16_le(out, h.last_ack_packet_id);
    write_u32_le(out, h.ack_bitfield);
    write_u16_le(out, h.tick);
    out.push(h.channel_count);
    proof {
        assert(out@ =~= old(out)@ + header_bytes(*h));
    }
}

/// Decode the header at the front of `buf`.
pub fn read_header(buf: &Vec<u8>) -> (r: Option<PacketHeader>)
    ensures
        r == parse_header(buf@),
{
    if buf.len() < 11 {
        return None;
    }
    Some(
        PacketHeader {
            packet_id: read_u16_le(buf, 0),
            last_ack_packet_id: read_u16_le(buf, 2),
            ack_bitfield: read_u32_le(buf, 4),
            tick: read_u16_le(buf, 8),
            channel_count: buf[10],
        },
    )
}

// ---------------------------------------------------------------------
// Channel blocks and whole packets
// ---------------------------------------------------------------------

/// The messages of one channel inside a datagram.
pub struct ChannelBlock {
    pub channel_id: u16,
    pub messages: Vec<WireMessage>,
}

/// The mathematical value of a channel block.
pub struct ChannelBlockView {
    pub channel_id: u16,
    pub messages: Seq<WireMessageView>,
}

impl View for ChannelBlock {
    type V = ChannelBlockView;

    open spec fn view(&self) -> ChannelBlockView {
        ChannelBlockView {
            channel_id: self.channel_id,
            messages: self.messages@.map_values(|m: WireMessage| m@),
        }
    }
}

/// A whole datagram before framing: the header fields (the channel count
/// is the length of `channels`) and the channel blocks.
pub struct Packet {
    pub packet_id: u16,
    pub last_ack_packet_id: u16,
    pub ack_bitfield: u32,
    pub tick: u16,
    pub channels: Vec<ChannelBlock>,
}

/// The mathematical value of a datagram.
pub struct PacketView {
    pub packet_id: u16,
    pub last_ack_packet_id: u16,
    pub ack_bitfield: u32,
    pub tick: u16,
    pub channels: Seq<ChannelBlockView>,
}

impl View for Packet {
    type V = PacketView;

    open spec fn view(&self) -> PacketView {
        PacketView {
            packet_id: self.packet_id,
            last_ack_packet_id: self.last_ack_packet_id,
            ack_bitfield: self.ack_bitfield,
            tick: self.tick,
            channels: self.channels@.map_values(|b: ChannelBlock| b@),
        }
    }
}

/// Concatenated images of a run of framed messages.
pub open spec fn messages_bytes(ms: Seq<WireMessageView>) -> Seq<u8>
    decreases ms.len(),
{
    if ms.len() == 0 {
        Seq::<u8>::empty()
    } else {
        message_bytes(ms[0]) + messages_bytes(ms.drop_first())
    }
}

/// A block is encodable: count fits the varint and each message is
/// encodable.
pub open spec fn block_wf(b: ChannelBlockView) -> bool {
    &&& b.messages.len() <= 0xffff
    &&& forall|i: int| 0 <= i < b.messages.len() ==> wm_wf(#[trigger] b.messages[i])
}

/// Byte image of a channel block.
pub open spec fn block_bytes(b: ChannelBlockView) -> Seq<u8> {
    varint_bytes(b.channel_id) + varint_bytes(b.messages.len() as u16) + messages_bytes(b.messages)
}

/// Concatenated images of a run of channel blocks.
pub open spec fn blocks_bytes(bs: Seq<ChannelBlockView>) -> Seq<u8>
    decreases bs.len(),
{
    if bs.len() == 0 {
        Seq::<u8>::empty()
    } else {
        block_bytes(bs[0]) + blocks_bytes(bs.drop_first())
    }
}

/// A packet is encodable: the channel count fits one byte and each block
/// is encodable.
pub open spec fn packet_wf(p: PacketView) -> bool {
    &&& p.channels.len() <= 0xff
    &&& forall|i: int| 0 <= i < p.channels.len() ==> block_wf(#[trigger] p.channels[i])
}

/// The header a packet is framed with.
pub open spec fn header_of(p: PacketView) -> PacketHeader {
    PacketHeader {
        packet_id: p.packet_id,
        last_ack_packet_id: p.last_ack_packet_id,
        ack_bitfield: p.ack_bitfield,
        tick: p.tick,
        channel_count: p.channels.len() as u8,
    }
}

/// Byte image of a whole datagram.
pub open spec fn packet_bytes(p: PacketView) -> Seq<u8> {
    header_bytes(header_of(p)) + blocks_bytes(p.channels)
}

/// Parse exactly `n` framed messages at the front of `s`.
pub open spec fn parse_messages(s: Seq<u8>, n: int) -> Option<(Seq<WireMessageView>, int)>
    decreases n,
{
    if n <= 0 {
        Some((Seq::<WireMessageView>::empty(), 0))
    } else {
        match parse_message(s) {
            None => None,
            Some((m, used)) => match parse_messages(s.skip(used), n - 1) {
                None => None,
                Some((ms, used2)) => Some((seq![m] + ms, used + used2)),
            },
        }
    }
}

/// Parse one channel block at the front of `s`.
pub open spec fn parse_block(s: Seq<u8>) -> Option<(ChannelBlockView, int)> {
    match parse_varint(s) {
        None => None,
        Some((channel_id, p1)) => match parse_varint(s.skip(p1)) {
            None => None,
            Some((count, p2)) => match parse_messages(s.skip(p1 + p2), count as int) {
                None => None,
                Some((ms, used)) => Some(
                    (ChannelBlockView { channel_id, messages: ms }, p1 + p2 + used),
                ),
            },
        },
    }
}

/// Parse exactly `n` channel blocks at the front of `s`.
pub open spec fn parse_blocks(s: Seq<u8>, n: int) -> Option<(Seq<ChannelBlockView>, int)>
    decreases n,
{
    if n <= 0 {
        Some((Seq::<ChannelBlockView>::empty(), 0))
    } else {
        match parse_block(s) {
            None => None,
            Some((b, used)) => match parse_blocks(s.skip(used), n - 1) {
                None => None,
                Some((bs, used2)) => Some((seq![b] + bs, used + used2)),
            },
        }
    }
}

/// Parse a whole datagram: the header, then as many blocks as the header
/// announces, consuming every byte. Trailing bytes make the datagram
/// malformed.
pub open spec fn parse_packet(s: Seq<u8>) -> Option<PacketView> {
    match parse_header(s) {
        None => None,
        Some(h) => match parse_blocks(s.skip(11), h.channel_count as int) {
            None => None,
            Some((bs, used)) => if 11 + used == s.len() {
                Some(
                    PacketView {
                        packet_id: h.packet_id,
                        last_ack_packet_id: h.last_ack_packet_id,
                        ack_bitfield: h.ack_bitfield,
                        tick: h.tick,
                        channels: bs,
                    },
                )
            } else {
                None
            },
        },
    }
}

/// Parsing a run of message images followed by anything yields the run.
#[verifier::rlimit(100)]
#[verifier::spinoff_prover]
pub proof fn lemma_messages_round_trip(ms: Seq<WireMessageView>, rest: Seq<u8>)
    requires
        forall|i: int| 0 <= i < ms.len() ==> wm_wf(#[trigger] ms[i]),
    ensures
        parse_messages(messages_bytes(ms) + rest, ms.len() as int) == Some(
            (ms, messages_bytes(ms).len() as int),
        ),
    decreases ms.len(),
{
    if ms.len() == 0 {
        assert(messages_bytes(ms) + rest =~= rest);
        assert(ms =~= Seq::<WireMessageView>::empty());
    } else {
        let head = ms[0];
        let tail = ms.drop_first();
        let s = messages_bytes(ms) + rest;
        assert(s =~= message_bytes(head) + (messages_bytes(tail) + rest));
        lemma_message_round_trip(head, messages_bytes(tail) + rest);
        let used = message_bytes(head).len() as int;
        assert(s.skip(used) =~= messages_bytes(tail) + rest);
        lemma_messages_round_trip(tail, rest);
        assert(seq![head] + tail =~= ms);
    }
}

/// Parsing a block image followed by anything yields the block.
#[verifier::rlimit(100)]
#[verifier::spinoff_prover]
pub proof fn lemma_block_round_trip(b: ChannelBlockView, rest: Seq<u8>)
    requires
        block_wf(b),
    ensures
        parse_block(block_bytes(b) + rest) == Some((b, block_bytes(b).len() as int)),
{
    let s = block_bytes(b) + rest;
    let v1 = varint_bytes(b.channel_id);
    let v2 = varint_bytes(b.messages.len() as u16);
    assert(s =~= v1 + (v2 + (messages_bytes(b.messages) + rest)));
    lemma_varint_round_trip(b.channel_id, v2 + (messages_bytes(b.messages) + rest));
    assert(s.skip(v1.len() as int) =~= v2 + (messages_bytes(b.messages) + rest));
    lemma_varint_round_trip(b.messages.len() as u16, messages_bytes(b.messages) + rest);
    assert(s.skip(v1.len() + v2.len() as int) =~= messages_bytes(b.messages) + rest);
    lemma_messages_round_trip(b.messages, rest);
}

/// Parsing a run of block images followed by anything yields the run.
#[verifier::rlimit(100)]
#[verifier::spinoff_prover]
pub proof fn lemma_blocks_round_trip(bs: Seq<ChannelBlockView>, rest: Seq<u8>)
    requires
        forall|i: int| 0 <= i < bs.len() ==> block_wf(#[trigger] bs[i]),
    ensures
        parse_blocks(blocks_bytes(bs) + rest, bs.len() as int) == Some(
            (bs, blocks_bytes(bs).len() as int),
        ),
    decreases bs.len(),
{
    if bs.len() == 0 {
        assert(blocks_bytes(bs) + rest =~= rest);
        assert(bs =~= Seq::<ChannelBlockView>::empty());
    } else {
        let head = bs[0];
        let tail = bs.drop_first();
        let s = blocks_bytes(bs) + rest;
        assert(s =~= block_bytes(head) + (blocks_bytes(tail) + rest));
        lemma_block_round_trip(head, blocks_bytes(tail) + rest);
        let used = block_bytes(head).len() as int;
        assert(s.skip(used) =~= blocks_bytes(tail) + rest);
        lemma_blocks_round_trip(tail, rest);
        assert(seq![head] + tail =~= bs);
    }
}

/// Round trip for a whole datagram: parsing the image of an encodable
/// packet yields the packet.
#[verifier::rlimit(100)]
#[verifier::spinoff_prover]
pub proof fn lemma_packet_round_trip(p: PacketView)
    requires
        packet_wf(p),
    ensures
        parse_packet(packet_bytes(p)) == Some(p),
{
    let s = packet_bytes(p);
    lemma_header_round_trip(header_of(p), blocks_bytes(p.channels));
    assert(s.skip(11) =~= blocks_bytes(p.channels) + Seq::<u8>::empty());
    lemma_blocks_round_trip(p.channels, Seq::<u8>::empty());
    assert(blocks_bytes(p.channels) + Seq::<u8>::empty() =~= blocks_bytes(p.channels));
}

/// `blocks_bytes` grows on the right one block at a time.
#[verifier::rlimit(100)]
#[verifier::spinoff_prover]
pub proof fn lemma_blocks_bytes_push(bs: Seq<ChannelBlockView>, b: ChannelBlockView)
    ensures
        blocks_bytes(bs.push(b)) == blocks_bytes(bs) + block_bytes(b),
    decreases bs.len(),
{
    assert(blocks_bytes(Seq::<ChannelBlockView>::empty()) == Seq::<u8>::empty());
    if bs.len() == 0 {
        assert(bs.push(b).drop_first() =~= Seq::<ChannelBlockView>::empty());
        assert(bs.push(b)[0] == b);
        assert(blocks_bytes(bs.push(b)) == block_bytes(b) + blocks_bytes(
            Seq::<ChannelBlockView>::empty(),
        ));
        assert(blocks_bytes(bs.push(b)) =~= blocks_bytes(bs) + block_bytes(b));
    } else {
        assert(bs.push(b).drop_first() =~= bs.drop_first().push(b));
        lemma_blocks_bytes_push(bs.drop_first(), b);
        assert(blocks_bytes(bs.push(b)) == block_bytes(bs[0]) + blocks_bytes(
            bs.drop_first().push(b),
        ));
        assert(blocks_bytes(bs.push(b)) =~= blocks_bytes(bs) + block_bytes(b));
    }
}

/// `messages_bytes` grows on the right one message at a time.
#[verifier::rlimit(100)]
#[verifier::spinoff_prover]
pub proof fn lemma_messages_bytes_push(ms: Seq<WireMessageView>, m: WireMessageView)
    ensures
        messages_bytes(ms.push(m)) == messages_bytes(ms) + message_bytes(m),
    decreases ms.len(),
{
    assert(messages_bytes(Seq::<WireMessageView>::empty()) == Seq::<u8>::empty());
    if ms.len() == 0 {
        assert(ms.push(m).drop_first() =~= Seq::<WireMessageView>::empty());
        assert(ms.push(m)[0] == m);
        assert(messages_bytes(ms.push(m)) == message_bytes(m) + messages_bytes(
            Seq::<WireMessageView>::empty(),
        ));
        assert(messages_bytes(ms.push(m)) =~= messages_bytes(ms) + message_bytes(m));
    } else {
        assert(ms.push(m).drop_first() =~= ms.drop_first().push(m));
        lemma_messages_bytes_push(ms.drop_first(), m);
        assert(messages_bytes(ms.push(m)) == message_bytes(ms[0]) + messages_bytes(
            ms.drop_first().push(m),
        ));
        assert(messages_bytes(ms.push(m)) =~= messages_bytes(ms) + message_bytes(m));
    }
}

/// Frame a packet into bytes: exactly its byte image.
#[verifier::loop_isolation(false)]
pub fn encode_packet(p: &Packet) -> (out: Vec<u8>)
    requires
        packet_wf(p@),
    ensures
        out@ == packet_bytes(p@),
{
    let mut out: Vec<u8> = Vec::new();
    let h = PacketHeader {
        packet_id: p.packet_id,
        last_ack_packet_id: p.last_ack_packet_id,
        ack_bitfield: p.ack_bitfield,
        tick: p.tick,
        channel_count: p.channels.len() as u8,
    };
    write_header(&mut out, &h);
    let nb = p.channels.len();
    let mut i: usize = 0;
    while i < nb
        invariant
            packet_wf(p@),
            nb == p.channels.len(),
            i <= nb,
            out@ == header_bytes(header_of(p@)) + blocks_bytes(
                p.channels@.map_values(|b: ChannelBlock| b@).take(i as int),
            ),
        decreases nb - i,
    {
        let ghost blocks_before = p.channels@.map_values(|b: ChannelBlock| b@).take(i as int);
        let block = &p.channels[i];
        proof {
            assert(p@.channels[i as int] == p.channels@[i as int]@);
            assert(block_wf(block@));
        }
        write_varint(&mut out, block.channel_id);
        write_varint(&mut out, block.messages.len() as u16);
        let nm = block.messages.len();
        let mut j: usize = 0;
        let ghost msg_start = out@;
        while j < nm
            invariant
                packet_wf(p@),
                i < p.channels.len(),
                block == &p.channels[i as int],
                block_wf(block@),
                nm == block.messages.len(),
                j <= nm,
                out@ == msg_start + messages_bytes(
                    block.messages@.map_values(|m: WireMessage| m@).take(j as int),
                ),
            decreases nm - j,
        {
            let ghost msgs_before = block.messages@.map_values(|m: WireMessage| m@).take(j as int);
            proof {
                assert(block@.messages[j as int] == block.messages@[j as int]@);
                assert(wm_wf(block.messages@[j as int]@));
            }
            write_message(&mut out, &block.messages[j]);
            proof {
                lemma_messages_bytes_push(msgs_before, block.messages@[j as int]@);
                assert(block.messages@.map_values(|m: WireMessage| m@).take(j + 1) =~= msgs_before
                    .push(block.messages@[j as int]@));
            }
            j += 1;
        }
        proof {
            assert(block.messages@.map_values(|m: WireMessage| m@).take(nm as int) =~= block
                .messages@.map_values(|m: WireMessage| m@));
            lemma_blocks_bytes_push(blocks_before, p.channels@[i as int]@);
            assert(p.channels@.map_values(|b: ChannelBlock| b@).take(i + 1) =~= blocks_before.push(
                p.channels@[i as int]@,
            ));
        }
        i += 1;
    }
    proof {
        assert(p.channels@.map_values(|b: ChannelBlock| b@).take(nb as int) =~= p@.channels);
    }
    out
}

/// Decode one channel block at `pos`; agrees exactly with the spec
/// parser applied to the bytes from `pos` on.
#[verifier::loop_isolation(false)]
#[verifier::rlimit(60)]
pub fn read_block(buf: &Vec<u8>, pos: usize) -> (r: Option<(ChannelBlock, usize)>)
    requires
        pos <= buf@.len(),
    ensures
        match r {
            Some((b, newpos)) => {
                &&& parse_block(buf@.skip(pos as int)) == Some((b@, newpos - pos))
                &&& pos < newpos <= buf@.len()
            },
            None => parse_block(buf@.skip(pos as int)) is None,
        },
{
    let ghost s_here = buf@.skip(pos as int);
    let channel_id = match read_varint(buf, pos) {
        Some((v, np)) => {
            proof {
                assert(buf@.skip(np as int) =~= s_here.skip(np - pos));
            }
            let r = (v, np);
            r
        },
        None => {
            return None;
        },
    };
    let count = match read_varint(buf, channel_id.1) {
        Some((v, np)) => {
            proof {
                assert(buf@.skip(np as int) =~= s_here.skip(np - pos));
            }
            let r = (v, np);
            r
        },
        None => {
            proof {
                assert(s_here.skip(channel_id.1 - pos) =~= buf@.skip(channel_id.1 as int));
            }
            return None;
        },
    };
    let mut messages: Vec<WireMessage> = Vec::new();
    let nm = count.0 as usize;
    let mut j: usize = 0;
    let mut mpos: usize = count.1;
    let ghost s_msgs = buf@.skip(count.1 as int);
    while j < nm
        invariant
            count.1 <= mpos <= buf@.len(),
            j <= nm,
            match parse_messages(buf@.skip(mpos as int), nm - j) {
                Some((ms, used)) => parse_messages(s_msgs, nm as int) == Some(
                    (messages@.map_values(|m: WireMessage| m@) + ms, mpos - count.1 + used),
                ),
                None => parse_messages(s_msgs, nm as int) is None,
            },
        decreases nm - j,
    {
        let ghost m_here = buf@.skip(mpos as int);
        match read_message(buf, mpos) {
            Some((m, np)) => {
                proof {
                    assert(buf@.skip(np as int) =~= m_here.skip(np - mpos));
                    assert(messages@.push(m).map_values(|mm: WireMessage| mm@) =~= messages@
                        .map_values(|mm: WireMessage| mm@).push(m@));
                    if parse_messages(buf@.skip(np as int), nm - j - 1) is Some {
                        let (ms2, used2) = parse_messages(
                            buf@.skip(np as int),
                            nm - j - 1,
                        ).unwrap();
                        assert(messages@.map_values(|mm: WireMessage| mm@) + (seq![m@] + ms2)
                            =~= messages@.map_values(|mm: WireMessage| mm@).push(m@) + ms2);
                    }
                }
                messages.push(m);
                mpos = np;
            },
            None => {
                proof {
                    assert(parse_messages(m_here, nm - j) is None);
                    assert(parse_messages(s_msgs, nm as int) is None);
                    assert(s_here.skip(count.1 - pos) =~= s_msgs);
                }
                return None;
            },
        }
        j += 1;
    }
    proof {
        assert(parse_messages(buf@.skip(mpos as int), 0) == Some(
            (Seq::<WireMessageView>::empty(), 0int),
        ));
        assert(messages@.map_values(|m: WireMessage| m@) + Seq::<WireMessageView>::empty()
            =~= messages@.map_values(|m: WireMessage| m@));
        assert(s_here.skip(count.1 - pos) =~= s_msgs);
    }
    let block = ChannelBlock { channel_id: channel_id.0, messages };
    proof {
        assert(parse_block(s_here) == Some((block@, mpos - pos as int)));
    }
    Some((block, mpos))
}

/// Parse a datagram into a packet; agrees exactly with the spec parser.
#[verifier::loop_isolation(false)]
#[verifier::rlimit(30)]
pub fn decode_packet(buf: &Vec<u8>) -> (r: Option<Packet>)
    ensures
        match r {
            Some(p) => parse_packet(buf@) == Some(p@),
            None => parse_packet(buf@) is None,
        },
{
    let h = match read_header(buf) {
        Some(h) => h,
        None => {
            return None;
        },
    };
    let mut channels: Vec<ChannelBlock> = Vec::new();
    let mut pos: usize = 11;
    let nb = h.channel_count as usize;
    let mut i: usize = 0;
    while i < nb
        invariant
            buf@.len() >= 11,
            parse_header(buf@) == Some(h),
            nb == h.channel_count,
            i <= nb,
            11 <= pos <= buf@.len(),
            match parse_blocks(buf@.skip(pos as int), nb - i) {
                Some((bs, used)) => parse_blocks(buf@.skip(11), nb as int) == Some(
                    (channels@.map_values(|b: ChannelBlock| b@) + bs, pos - 11 + used),
                ),
                None => parse_blocks(buf@.skip(11), nb as int) is None,
            },
        decreases nb - i,
    {
        let ghost s_here = buf@.skip(pos as int);
        match read_block(buf, pos) {
            Some((block, np)) => {
                proof {
                    assert(buf@.skip(np as int) =~= s_here.skip(np - pos));
                    assert(channels@.push(block).map_values(|b: ChannelBlock| b@) =~= channels@
                        .map_values(|b: ChannelBlock| b@).push(block@));
                    if parse_blocks(buf@.skip(np as int), nb - i - 1) is Some {
                        let (bs2, used2) = parse_blocks(buf@.skip(np as int), nb - i - 1).unwrap();
                        assert(channels@.map_values(|b: ChannelBlock| b@) + (seq![block@] + bs2)
                            =~= channels@.map_values(|b: ChannelBlock| b@).push(block@) + bs2);
                    }
                }
                channels.push(block);
                pos = np;
            },
            None => {
                proof {
                    assert(parse_blocks(s_here, nb - i) is None);
                }
                return None;
            },
        }
        i += 1;
    }
    proof {
        assert(parse_blocks(buf@.skip(pos as int), 0) == Some(
            (Seq::<ChannelBlockView>::empty(), 0int),
        ));
        assert(channels@.map_values(|b: ChannelBlock| b@) + Seq::<ChannelBlockView>::empty()
            =~= channels@.map_values(|b: ChannelBlock| b@));
    }
    if pos != buf.len() {
        return None;
    }
    Some(
        Packet {
            packet_id: h.packet_id,
            last_ack_packet_id: h.last_ack_packet_id,
            ack_bitfield: h.ack_bitfield,
            tick: h.tick,
            channels,
        },
    )
}

} // verus!
