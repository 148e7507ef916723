//! The `.sniff` capture format: a magic tag, a packet count, then one record
//! per packet (source, command id, head and body lengths, head, body), all
//! integers big-endian. The file on disk holds these bytes encrypted under a
//! 16-byte key whose hex text names the file.

use vstd::prelude::*;

use rand_core::TryRngCore;
use vstd::utf8::encode_utf8;

use crate::hex::{byte_hex, hex_digit, hex_lower_packed, hex_packed, hex_packed_in};
use crate::text::string_from_chars;

verus! {

/// Size of a capture key in bytes.
pub const KEY_SIZE: usize = 16;

/// A capture key.
pub type Key = [u8; KEY_SIZE];

/// Which side sent a packet.
#[derive(Clone, Copy, Debug, PartialEq, Eq, Structural)]
pub enum PacketSource {
    Client,
    Server,
}

/// A captured packet as the sniffer shows it.
#[derive(Clone, Debug)]
pub struct DecodedPacket {
    pub id: u64,
    pub cmd_id: u32,
    pub source: PacketSource,
    pub name: Option<String>,
    pub head: Vec<u8>,
    pub body: Vec<u8>,
    pub body_json: Option<String>,
    pub request_id: Option<u64>,
    pub custom_packet: bool,
}

/// Why bytes are not a capture.
#[derive(Clone, Copy, Debug, PartialEq, Eq, Structural)]
pub enum FormatProblem {
    FileTooShort,
    BadMagic,
    TruncatedRecord,
}

impl FormatProblem {
    /// The reason as the sniffer reports it.
    pub fn reason(&self) -> (r: &'static str)
        ensures
            r@ == match self {
                FormatProblem::FileTooShort => "file too short"@,
                FormatProblem::BadMagic => "bad magic"@,
                FormatProblem::TruncatedRecord => "truncated packet record"@,
            },
    {
        match self {
            FormatProblem::FileTooShort => "file too short",
            FormatProblem::BadMagic => "bad magic",
            FormatProblem::TruncatedRecord => "truncated packet record",
        }
    }
}

/// Why a capture could not be read.
#[derive(Clone, Copy, Debug, PartialEq, Eq, Structural)]
pub enum SniffFileError {
    InvalidFormat(FormatProblem),
}

/// The tag every capture starts with: "1337".
pub open spec fn magic() -> Seq<u8> {
    seq![0x31u8, 0x33u8, 0x33u8, 0x37u8]
}

/// The big-endian bytes of `x`.
pub open spec fn be32(x: u32) -> Seq<u8> {
    seq![(x >> 24u32) as u8, (x >> 16u32) as u8, (x >> 8u32) as u8, x as u8]
}

/// The big-endian `u32` in the four bytes at `p`.
pub open spec fn be32_at(b: Seq<u8>, p: int) -> u32 {
    ((b[p] as u32) << 24u32) | ((b[p + 1] as u32) << 16u32) | ((b[p + 2] as u32) << 8u32) | (b[p
        + 3] as u32)
}

/// The byte that stands for a source.
pub open spec fn source_byte(s: PacketSource) -> u8 {
    match s {
        PacketSource::Client => 0,
        PacketSource::Server => 1,
    }
}

/// The record of one packet. Lengths that do not fit in 32 bits are written
/// cut to their low 32 bits.
pub open spec fn record_bytes(p: DecodedPacket) -> Seq<u8> {
    seq![source_byte(p.source)] + be32(p.cmd_id) + be32(p.head@.len() as u32) + be32(
        p.body@.len() as u32,
    ) + p.head@ + p.body@
}

/// The records of the packets, in order.
pub open spec fn records_bytes(ps: Seq<DecodedPacket>) -> Seq<u8>
    decreases ps.len(),
{
    if ps.len() == 0 {
        Seq::empty()
    } else {
        record_bytes(ps[0]) + records_bytes(ps.drop_first())
    }
}

/// The plain bytes of a capture of `ps`.
pub open spec fn capture_bytes(ps: Seq<DecodedPacket>) -> Seq<u8> {
    magic() + be32(ps.len() as u32) + records_bytes(ps)
}

/// What a record holds: source, command id, head, body.
pub type RecordView = (PacketSource, u32, Seq<u8>, Seq<u8>);

/// The record at `pos` and the position after it, or `None` when the source
/// byte is neither 0 nor 1 or the record does not fit in `data`.
pub open spec fn record_at(data: Seq<u8>, pos: int) -> Option<(RecordView, int)> {
    if pos < 0 || pos + 13 > data.len() || data[pos] > 1 {
        None
    } else {
        let source = if data[pos] == 0 {
            PacketSource::Client
        } else {
            PacketSource::Server
        };
        let cmd_id = be32_at(data, pos + 1);
        let head_len = be32_at(data, pos + 5) as int;
        let body_len = be32_at(data, pos + 9) as int;
        let h = pos + 13;
        if h + head_len + body_len > data.len() {
            None
        } else {
            Some(
                (
                    (
                        source,
                        cmd_id,
                        data.subrange(h, h + head_len),
                        data.subrange(h + head_len, h + head_len + body_len),
                    ),
                    h + head_len + body_len,
                ),
            )
        }
    }
}

/// `count` records read one after the other from `pos`.
pub open spec fn records_from(data: Seq<u8>, pos: int, count: nat) -> Option<Seq<RecordView>>
    decreases count,
{
    if count == 0 {
        Some(Seq::empty())
    } else {
        match record_at(data, pos) {
            None => None,
            Some((r, q)) => match records_from(data, q, (count - 1) as nat) {
                None => None,
                Some(rest) => Some(seq![r] + rest),
            },
        }
    }
}

/// What reading the plain bytes of a capture gives: its records, or the
/// problem that stops the reading.
pub open spec fn parse_capture(data: Seq<u8>) -> Result<Seq<RecordView>, FormatProblem> {
    if data.len() < 8 {
        Err(FormatProblem::FileTooShort)
    } else if data.subrange(0, 4) != magic() {
        Err(FormatProblem::BadMagic)
    } else {
        match records_from(data, 8, be32_at(data, 4) as nat) {
            None => Err(FormatProblem::TruncatedRecord),
            Some(rs) => Ok(rs),
        }
    }
}

/// The packet a capture gives back for record `r` at position `i`: numbered
/// from 1, not yet named or decoded, not a pending request, not custom.
pub open spec fn loaded_packet(p: DecodedPacket, i: int, r: RecordView) -> bool {
    &&& p.id == i + 1
    &&& p.source == r.0
    &&& p.cmd_id == r.1
    &&& p.head@ == r.2
    &&& p.body@ == r.3
    &&& p.name is None
    &&& p.body_json is None
    &&& p.request_id is None
    &&& !p.custom_packet
}

/// Appends the big-endian bytes of `x`.
fn push_be32(buf: &mut Vec<u8>, x: u32)
    ensures
        final(buf)@ == old(buf)@ + be32(x),
{
    buf.push((x >> 24u32) as u8);
    buf.push((x >> 16u32) as u8);
    buf.push((x >> 8u32) as u8);
    buf.push(x as u8);
    assert(final(buf)@ =~= old(buf)@ + be32(x));
}

/// Appends `src` to `buf`.
fn push_all(buf: &mut Vec<u8>, src: &Vec<u8>)
    ensures
        final(buf)@ == old(buf)@ + src@,
{
    let ghost start = buf@;
    for i in 0..src.len()
        invariant
            buf@ == start + src@.take(i as int),
    {
        buf.push(src[i]);
        assert(start + src@.take(i + 1) =~= start + src@.take(i as int) + seq![src@[i as int]]);
    }
    assert(src@.take(src@.len() as int) == src@);
}

/// Records of a concatenation are the concatenation of the records.
pub proof fn lemma_records_bytes_concat(a: Seq<DecodedPacket>, b: Seq<DecodedPacket>)
    ensures
        records_bytes(a + b) == records_bytes(a) + records_bytes(b),
    decreases a.len(),
{
    if a.len() == 0 {
        assert(a + b == b);
    } else {
        lemma_records_bytes_concat(a.drop_first(), b);
        assert((a + b).drop_first() == a.drop_first() + b);
        assert(records_bytes(a) + records_bytes(b) =~= record_bytes(a[0]) + (records_bytes(
            a.drop_first(),
        ) + records_bytes(b)));
    }
}

/// The plain bytes of a capture of `packets`.
pub fn serialize_packets(packets: &[DecodedPacket]) -> (buf: Vec<u8>)
    ensures
        buf@ == capture_bytes(packets@),
{
    let mut buf: Vec<u8> = Vec::new();
    buf.push(0x31);
    buf.push(0x33);
    buf.push(0x33);
    buf.push(0x37);
    push_be32(&mut buf, packets.len() as u32);
    let ghost header = buf@;
    assert(header == magic() + be32(packets@.len() as u32));
    assert(records_bytes(packets@.take(0)) == Seq::<u8>::empty());
    for i in 0..packets.len()
        invariant
            header == magic() + be32(packets@.len() as u32),
            buf@ == header + records_bytes(packets@.take(i as int)),
    {
        let packet = &packets[i];
        let ghost before = buf@;
        let source: u8 = match packet.source {
            PacketSource::Client => 0,
            PacketSource::Server => 1,
        };
        buf.push(source);
        push_be32(&mut buf, packet.cmd_id);
        push_be32(&mut buf, packet.head.len() as u32);
        push_be32(&mut buf, packet.body.len() as u32);
        push_all(&mut buf, &packet.head);
        push_all(&mut buf, &packet.body);
        proof {
            assert(buf@ =~= before + record_bytes(packets@[i as int]));
            lemma_records_bytes_concat(packets@.take(i as int), seq![packets@[i as int]]);
            assert(packets@.take(i + 1) == packets@.take(i as int) + seq![packets@[i as int]]);
            assert(seq![packets@[i as int]].drop_first() =~= Seq::<DecodedPacket>::empty());
            assert(records_bytes(Seq::<DecodedPacket>::empty()) == Seq::<u8>::empty());
            assert(records_bytes(seq![packets@[i as int]]) =~= record_bytes(packets@[i as int]));
        }
    }
    assert(packets@.take(packets@.len() as int) == packets@);
    buf
}

/// The fields of a record, as read back.
pub struct Record {
    pub source: PacketSource,
    pub cmd_id: u32,
    pub head: Vec<u8>,
    pub body: Vec<u8>,
}

/// Reads one byte at `*cursor` and moves past it.
fn read_u8(data: &[u8], cursor: &mut usize) -> (res: Option<u8>)
    ensures
        *old(cursor) < data@.len() ==> res == Some(data@[*old(cursor) as int]) && *final(cursor)
            == *old(cursor) + 1,
        *old(cursor) >= data@.len() ==> res is None,
{
    if *cursor >= data.len() {
        return None;
    }
    let value = data[*cursor];
    *cursor += 1;
    Some(value)
}

/// Reads a big-endian `u32` at `*cursor` and moves past it.
fn read_u32(data: &[u8], cursor: &mut usize) -> (res: Option<u32>)
    ensures
        *old(cursor) + 4 <= data@.len() ==> res == Some(be32_at(data@, *old(cursor) as int))
            && *final(cursor) == *old(cursor) + 4,
        *old(cursor) + 4 > data@.len() ==> res is None,
{
    if *cursor > data.len() || data.len() - *cursor < 4 {
        return None;
    }
    let c = *cursor;
    let value = ((data[c] as u32) << 24u32) | ((data[c + 1] as u32) << 16u32) | ((data[c + 2] as u32)
        << 8u32) | (data[c + 3] as u32);
    *cursor += 4;
    Some(value)
}

/// Reads `len` bytes at `*cursor` and moves past them.
fn read_bytes(data: &[u8], cursor: &mut usize, len: usize) -> (res: Option<Vec<u8>>)
    ensures
        *old(cursor) + len <= data@.len() ==> (res matches Some(v) && v@ == data@.subrange(
            *old(cursor) as int,
            *old(cursor) + len,
        ) && *final(cursor) == *old(cursor) + len),
        *old(cursor) + len > data@.len() ==> res is None,
{
    if *cursor > data.len() || len > data.len() - *cursor {
        return None;
    }
    let start = *cursor;
    let mut bytes: Vec<u8> = Vec::new();
    for i in 0..len
        invariant
            start + len <= data.len(),
            bytes@ == data@.subrange(start as int, start + i),
    {
        bytes.push(data[start + i]);
        assert(data@.subrange(start as int, start + i + 1) =~= data@.subrange(
            start as int,
            start + i,
        ).push(data@[start + i]));
    }
    *cursor += len;
    Some(bytes)
}

/// Reads the record at `*cursor` and moves past it.
fn read_record(data: &[u8], cursor: &mut usize) -> (res: Option<Record>)
    ensures
        match record_at(data@, *old(cursor) as int) {
            Some((r, q)) => res matches Some(rec) && rec.source == r.0 && rec.cmd_id == r.1
                && rec.head@ == r.2 && rec.body@ == r.3 && *final(cursor) == q,
            None => res is None,
        },
{
    let ghost pos = *cursor as int;
    let source = match read_u8(data, cursor) {
        Some(0) => PacketSource::Client,
        Some(1) => PacketSource::Server,
        _ => return None,
    };
    let cmd_id = match read_u32(data, cursor) {
        Some(v) => v,
        None => return None,
    };
    let head_len = match read_u32(data, cursor) {
        Some(v) => v as usize,
        None => return None,
    };
    let body_len = match read_u32(data, cursor) {
        Some(v) => v as usize,
        None => return None,
    };
    let head = match read_bytes(data, cursor, head_len) {
        Some(v) => v,
        None => return None,
    };
    let body = match read_bytes(data, cursor, body_len) {
        Some(v) => v,
        None => return None,
    };
    Some(Record { source, cmd_id, head, body })
}

/// Reads the plain bytes of a capture. The packets are numbered from 1 and
/// carry no name, decoded body or request.
pub fn deserialize_packets(data: &[u8]) -> (res: Result<Vec<DecodedPacket>, SniffFileError>)
    ensures
        match parse_capture(data@) {
            Err(p) => res == Err::<Vec<DecodedPacket>, SniffFileError>(
                SniffFileError::InvalidFormat(p),
            ),
            Ok(rs) => res matches Ok(v) && v@.len() == rs.len() && forall|i: int|
                0 <= i < rs.len() ==> loaded_packet(#[trigger] v@[i], i, rs[i]),
        },
{
    if data.len() < 8 {
        return Err(SniffFileError::InvalidFormat(FormatProblem::FileTooShort));
    }
    if data[0] != 0x31 || data[1] != 0x33 || data[2] != 0x33 || data[3] != 0x37 {
        proof {
            let m = data@.subrange(0, 4);
            assert(m[0] == data@[0] && m[1] == data@[1] && m[2] == data@[2] && m[3] == data@[3]);
        }
        return Err(SniffFileError::InvalidFormat(FormatProblem::BadMagic));
    }
    assert(data@.subrange(0, 4) =~= magic());
    let count = ((data[4] as u32) << 24u32) | ((data[5] as u32) << 16u32) | ((data[6] as u32)
        << 8u32) | (data[7] as u32);
    let ghost total = records_from(data@, 8, count as nat);
    let mut packets: Vec<DecodedPacket> = Vec::new();
    let mut cursor: usize = 8;
    let ghost mut done: Seq<RecordView> = Seq::empty();
    let mut index: u32 = 0;
    while index < count
        invariant
            index <= count,
            data@.len() >= 8,
            data@.subrange(0, 4) == magic(),
            count == be32_at(data@, 4),
            total == records_from(data@, 8, count as nat),
            total == match records_from(data@, cursor as int, (count - index) as nat) {
                Some(rest) => Some(done + rest),
                None => None,
            },
            packets@.len() == index,
            done.len() == index,
            forall|i: int| 0 <= i < index ==> loaded_packet(#[trigger] packets@[i], i, done[i]),
        decreases count - index,
    {
        let ghost pos = cursor as int;
        let record = match read_record(data, &mut cursor) {
            Some(r) => r,
            None => {
                assert(records_from(data@, pos, (count - index) as nat) is None);
                return Err(SniffFileError::InvalidFormat(FormatProblem::TruncatedRecord));
            },
        };
        let ghost r: RecordView = (record.source, record.cmd_id, record.head@, record.body@);
        packets.push(
            DecodedPacket {
                id: index as u64 + 1,
                cmd_id: record.cmd_id,
                source: record.source,
                name: None,
                head: record.head,
                body: record.body,
                body_json: None,
                request_id: None,
                custom_packet: false,
            },
        );
        proof {
            assert(forall|rest: Seq<RecordView>| done + (seq![r] + rest) =~= done.push(r) + rest);
            done = done.push(r);
        }
        index += 1;
    }
    assert(records_from(data@, cursor as int, 0) == Some(Seq::<RecordView>::empty()));
    assert(done + Seq::<RecordView>::empty() =~= done);
    Ok(packets)
}

/// What a packet's record holds.
pub open spec fn record_view(p: DecodedPacket) -> RecordView {
    (p.source, p.cmd_id, p.head@, p.body@)
}

/// The big-endian bytes of a `u32` read back give it.
pub proof fn lemma_be32_roundtrip(x: u32)
    ensures
        be32_at(be32(x), 0) == x,
{
    let b = be32(x);
    assert(b[0] == (x >> 24u32) as u8 && b[1] == (x >> 16u32) as u8 && b[2] == (x >> 8u32) as u8
        && b[3] == x as u8);
    assert((((((x >> 24u32) as u8) as u32) << 24u32) | ((((x >> 16u32) as u8) as u32) << 16u32) | ((
    ((x >> 8u32) as u8) as u32) << 8u32) | ((x as u8) as u32)) == x) by (bit_vector);
}

/// A `u32` written at `p` reads back from `p`.
pub proof fn lemma_be32_at_written(data: Seq<u8>, p: int, x: u32)
    requires
        0 <= p,
        p + 4 <= data.len(),
        data.subrange(p, p + 4) == be32(x),
    ensures
        be32_at(data, p) == x,
{
    lemma_be32_roundtrip(x);
    let s = data.subrange(p, p + 4);
    assert(data[p] == s[0] && data[p + 1] == s[1] && data[p + 2] == s[2] && data[p + 3] == s[3]);
}

/// A record written at `pos` reads back as its packet when the head and body
/// lengths fit in 32 bits.
pub proof fn lemma_record_at_written(data: Seq<u8>, pos: int, p: DecodedPacket)
    requires
        0 <= pos,
        pos + record_bytes(p).len() <= data.len(),
        data.subrange(pos, pos + record_bytes(p).len()) == record_bytes(p),
        p.head@.len() <= u32::MAX,
        p.body@.len() <= u32::MAX,
    ensures
        record_at(data, pos) == Some((record_view(p), pos + record_bytes(p).len())),
{
    let rb = record_bytes(p);
    let hl = p.head@.len() as int;
    let bl = p.body@.len() as int;
    assert(rb.len() == 13 + hl + bl);
    assert(data[pos] == rb[0]);
    assert(data.subrange(pos + 1, pos + 5) =~= rb.subrange(1, 5));
    assert(rb.subrange(1, 5) =~= be32(p.cmd_id));
    assert(data.subrange(pos + 5, pos + 9) =~= rb.subrange(5, 9));
    assert(rb.subrange(5, 9) =~= be32(hl as u32));
    assert(data.subrange(pos + 9, pos + 13) =~= rb.subrange(9, 13));
    assert(rb.subrange(9, 13) =~= be32(bl as u32));
    lemma_be32_at_written(data, pos + 1, p.cmd_id);
    lemma_be32_at_written(data, pos + 5, hl as u32);
    lemma_be32_at_written(data, pos + 9, bl as u32);
    assert(data.subrange(pos + 13, pos + 13 + hl) =~= rb.subrange(13, 13 + hl));
    assert(rb.subrange(13, 13 + hl) =~= p.head@);
    assert(data.subrange(pos + 13 + hl, pos + 13 + hl + bl) =~= rb.subrange(13 + hl, 13 + hl + bl));
    assert(rb.subrange(13 + hl, 13 + hl + bl) =~= p.body@);
}

/// Records written after any prefix read back as the packets they came from,
/// when every length fits in 32 bits.
#[verifier::spinoff_prover]
#[verifier::rlimit(30)]
pub proof fn lemma_records_roundtrip(prefix: Seq<u8>, ps: Seq<DecodedPacket>)
    requires
        forall|i: int|
            0 <= i < ps.len() ==> (#[trigger] ps[i]).head@.len() <= u32::MAX && ps[i].body@.len()
                <= u32::MAX,
    ensures
        records_from(prefix + records_bytes(ps), prefix.len() as int, ps.len()) == Some(
            ps.map_values(|p: DecodedPacket| record_view(p)),
        ),
    decreases ps.len(),
{
    let data = prefix + records_bytes(ps);
    if ps.len() == 0 {
        assert(ps.map_values(|p: DecodedPacket| record_view(p)) =~= Seq::<RecordView>::empty());
    } else {
        let p = ps[0];
        let rest = ps.drop_first();
        let rb = record_bytes(p);
        let pos = prefix.len() as int;
        assert(data =~= (prefix + rb) + records_bytes(rest));
        assert(data.subrange(pos, pos + rb.len()) =~= rb);
        lemma_record_at_written(data, pos, p);
        assert forall|i: int| 0 <= i < rest.len() implies (#[trigger] rest[i]).head@.len()
            <= u32::MAX && rest[i].body@.len() <= u32::MAX by {
            assert(rest[i] == ps[i + 1]);
        }
        lemma_records_roundtrip(prefix + rb, rest);
        assert(ps.map_values(|p: DecodedPacket| record_view(p)) =~= seq![record_view(p)]
            + rest.map_values(|p: DecodedPacket| record_view(p)));
    }
}

/// Reading back the bytes written for a capture gives its packets' sources,
/// command ids, heads and bodies, in order, provided the packet count and
/// every head and body length fit in 32 bits.
pub proof fn lemma_capture_roundtrip(ps: Seq<DecodedPacket>)
    requires
        ps.len() <= u32::MAX,
        forall|i: int|
            0 <= i < ps.len() ==> (#[trigger] ps[i]).head@.len() <= u32::MAX && ps[i].body@.len()
                <= u32::MAX,
    ensures
        parse_capture(capture_bytes(ps)) == Ok::<Seq<RecordView>, FormatProblem>(
            ps.map_values(|p: DecodedPacket| record_view(p)),
        ),
{
    let data = capture_bytes(ps);
    let prefix = magic() + be32(ps.len() as u32);
    assert(data == prefix + records_bytes(ps));
    assert(data.subrange(0, 4) =~= magic());
    assert(data.subrange(4, 8) =~= be32(ps.len() as u32));
    lemma_be32_at_written(data, 4, ps.len() as u32);
    lemma_records_roundtrip(prefix, ps);
}

// ---------------------------------------------------------------------------
// Keys
// ---------------------------------------------------------------------------

/// A fresh key from the operating system's random source
/// (`rand_core::OsRng::try_fill_bytes`). Trusted: nothing is claimed of the
/// bytes, which come from the operating system, nor of whether the source
/// delivers them; `None` when it reports an error.
#[verifier::external_body]
fn os_random_key() -> Option<Key> {
    let mut key = [0u8; KEY_SIZE];
    match rand_core::OsRng.try_fill_bytes(&mut key) {
        Ok(()) => Some(key),
        Err(_) => None,
    }
}

/// A fresh random key; `None` when the operating system's random source
/// fails.
pub fn generate_key() -> Option<Key> {
    os_random_key()
}

/// The key as 32 lower-case hex digits.
pub fn key_to_hex(key: &Key) -> (s: String)
    ensures
        s@ == hex_packed(key@),
{
    hex_lower_packed(key.as_slice())
}

/// The extension of capture files.
pub open spec fn sniff_extension() -> Seq<char> {
    seq!['.', 's', 'n', 'i', 'f', 'f']
}

/// The file name a capture under `key` is saved as: the key's hex text and
/// the `.sniff` extension.
pub fn suggested_filename(key: &Key) -> (s: String)
    ensures
        s@ == hex_packed(key@) + sniff_extension(),
{
    let mut out: Vec<char> = Vec::new();
    let mut i: usize = 0;
    while i < KEY_SIZE
        invariant
            i <= KEY_SIZE,
            out@ == hex_packed(key@.take(i as int)),
        decreases KEY_SIZE - i,
    {
        assert(key@.take(i + 1).drop_last() == key@.take(i as int));
        crate::hex::push_byte_hex(&mut out, key[i], false);
        i += 1;
    }
    assert(key@.take(KEY_SIZE as int) == key@);
    out.push('.');
    out.push('s');
    out.push('n');
    out.push('i');
    out.push('f');
    out.push('f');
    assert(out@ =~= hex_packed(key@) + sniff_extension());
    string_from_chars(&out)
}

/// The value of the hex digit byte `c` (either case).
pub open spec fn hex_nibble(c: u8) -> Option<u8> {
    if 48 <= c <= 57 {
        Some((c - 48) as u8)
    } else if 97 <= c <= 102 {
        Some((c - 87) as u8)
    } else if 65 <= c <= 70 {
        Some((c - 55) as u8)
    } else {
        None
    }
}

/// What `u8::from_str_radix(.., 16)` makes of the two bytes `a`, `b`: two hex
/// digits, or `+` and one hex digit.
pub open spec fn hex_pair(a: u8, b: u8) -> Option<u8> {
    if a == 43 {
        hex_nibble(b)
    } else {
        match (hex_nibble(a), hex_nibble(b)) {
            (Some(x), Some(y)) => Some((x * 16 + y) as u8),
            _ => None,
        }
    }
}

/// The bytes of the `.sniff` extension.
pub open spec fn sniff_suffix_bytes() -> Seq<u8> {
    seq![0x2eu8, 0x73u8, 0x6eu8, 0x69u8, 0x66u8, 0x66u8]
}

/// `b` without a trailing `.sniff`.
pub open spec fn strip_sniff(b: Seq<u8>) -> Seq<u8> {
    if b.len() >= 6 && b.subrange(b.len() - 6, b.len() as int) == sniff_suffix_bytes() {
        b.subrange(0, b.len() - 6)
    } else {
        b
    }
}

/// The key whose hex text (with or without `.sniff`) is encoded by `b`: the
/// text must be 32 bytes, read pairwise as `u8::from_str_radix` reads them.
pub open spec fn key_from_hex(b: Seq<u8>) -> Option<Seq<u8>> {
    let h = strip_sniff(b);
    if h.len() == 32 && forall|i: int| 0 <= i < 16 ==> (#[trigger] hex_pair(h[2 * i], h[2 * i + 1])) is Some {
        Some(Seq::new(16, |i: int| hex_pair(h[2 * i], h[2 * i + 1])->0))
    } else {
        None
    }
}

/// The value of the hex digit byte `c`.
fn nibble(c: u8) -> (r: Option<u8>)
    ensures
        r == hex_nibble(c),
{
    if 48 <= c && c <= 57 {
        Some(c - 48)
    } else if 97 <= c && c <= 102 {
        Some(c - 87)
    } else if 65 <= c && c <= 70 {
        Some(c - 55)
    } else {
        None
    }
}

/// The key named by a hex text, with or without the `.sniff` extension.
pub fn hex_to_key(hex: &str) -> (res: Option<Key>)
    ensures
        match key_from_hex(encode_utf8(hex@)) {
            Some(k) => res matches Some(r) && r@ == k,
            None => res is None,
        },
{
    let bytes = hex.as_bytes();
    let n = bytes.len();
    let ends_with_ext = n >= 6 && bytes[n - 6] == 0x2e && bytes[n - 5] == 0x73 && bytes[n - 4]
        == 0x6e && bytes[n - 3] == 0x69 && bytes[n - 2] == 0x66 && bytes[n - 1] == 0x66;
    proof {
        if n >= 6 {
            let t = bytes@.subrange(n - 6, n as int);
            assert(t[0] == bytes@[n - 6] && t[1] == bytes@[n - 5] && t[2] == bytes@[n - 4] && t[3]
                == bytes@[n - 3] && t[4] == bytes@[n - 2] && t[5] == bytes@[n - 1]);
            if ends_with_ext {
                assert(t =~= sniff_suffix_bytes());
            }
        }
    }
    let len = if ends_with_ext {
        n - 6
    } else {
        n
    };
    let ghost h = strip_sniff(bytes@);
    assert(h =~= bytes@.subrange(0, len as int));
    if len != 32 {
        return None;
    }
    let mut key: Key = [0u8; KEY_SIZE];
    let mut i: usize = 0;
    while i < KEY_SIZE
        invariant
            i <= KEY_SIZE,
            len == 32,
            h == bytes@.subrange(0, 32),
            h == strip_sniff(bytes@),
            bytes@ == encode_utf8(hex@),
            bytes@.len() >= 32,
            forall|j: int| 0 <= j < i ==> (#[trigger] hex_pair(h[2 * j], h[2 * j + 1])) == Some(key@[j]),
        decreases KEY_SIZE - i,
    {
        let a = bytes[2 * i];
        let b = bytes[2 * i + 1];
        let v = if a == 43 {
            nibble(b)
        } else {
            match (nibble(a), nibble(b)) {
                (Some(x), Some(y)) => Some(x * 16 + y),
                _ => None,
            }
        };
        assert(h[2 * i as int] == a && h[2 * i + 1] == b);
        match v {
            Some(value) => {
                key[i] = value;
            },
            None => {
                assert(hex_pair(h[2 * i as int], h[2 * i + 1]) is None);
                return None;
            },
        }
        i += 1;
    }
    assert(key@ =~= Seq::new(16, |j: int| hex_pair(h[2 * j], h[2 * j + 1])->0));
    Some(key)
}

/// Layout of packed hex text: two digits per byte.
pub proof fn lemma_hex_packed_layout(b: Seq<u8>)
    ensures
        hex_packed(b).len() == 2 * b.len(),
        forall|i: int|
            0 <= i < b.len() ==> hex_packed(b)[2 * i] == hex_digit(#[trigger] b[i] / 16, false)
                && hex_packed(b)[2 * i + 1] == hex_digit(b[i] % 16, false),
    decreases b.len(),
{
    if b.len() > 0 {
        lemma_hex_packed_layout(b.drop_last());
        assert forall|i: int| 0 <= i < b.len() implies hex_packed(b)[2 * i] == hex_digit(
            #[trigger] b[i] / 16,
            false,
        ) && hex_packed(b)[2 * i + 1] == hex_digit(b[i] % 16, false) by {
            if i < b.len() - 1 {
                assert(b[i] == b.drop_last()[i]);
            }
        }
    }
}

/// A lower-case hex digit is ASCII and reads back as its value.
pub proof fn lemma_hex_digit_reads_back(n: u8)
    requires
        n < 16,
    ensures
        (hex_digit(n, false) as u32) < 128,
        hex_nibble(hex_digit(n, false) as u8) == Some(n),
        hex_digit(n, false) as u8 != 43,
{
}

/// The bytes of packed hex text, read in pairs, give the key back.
proof fn lemma_hex_text_reads_back(k: Seq<u8>, bytes: Seq<u8>)
    requires
        k.len() == 16,
        bytes.len() == 32,
        forall|j: int| 0 <= j < 32 ==> bytes[j] == (#[trigger] hex_packed(k)[j]) as u8,
    ensures
        forall|i: int| 0 <= i < 16 ==> (#[trigger] hex_pair(bytes[2 * i], bytes[2 * i + 1])) == Some(
            k[i],
        ),
{
    lemma_hex_packed_layout(k);
    assert forall|i: int| 0 <= i < 16 implies (#[trigger] hex_pair(bytes[2 * i], bytes[2 * i + 1]))
        == Some(k[i]) by {
        let hi = k[i] / 16;
        let lo = k[i] % 16;
        lemma_hex_digit_reads_back(hi);
        lemma_hex_digit_reads_back(lo);
        assert(bytes[2 * i] == hex_packed(k)[2 * i] as u8);
        assert(bytes[2 * i + 1] == hex_packed(k)[2 * i + 1] as u8);
    }
}

/// The name a capture is saved under, and the bare hex text of its key, both
/// lead back to the key.
pub proof fn lemma_key_name_roundtrip(k: Seq<u8>)
    requires
        k.len() == 16,
    ensures
        key_from_hex(encode_utf8(hex_packed(k))) == Some(k),
        key_from_hex(encode_utf8(hex_packed(k) + sniff_extension())) == Some(k),
{
    broadcast use vstd::utf8::is_ascii_chars_encode_utf8;

    lemma_hex_packed_layout(k);
    let hx = hex_packed(k);
    assert forall|j: int| 0 <= j < hx.len() implies '\0' <= #[trigger] hx[j] <= '\u{7f}' by {
        let i = j / 2;
        assert(0 <= i < 16);
        lemma_hex_digit_reads_back(k[i] / 16);
        lemma_hex_digit_reads_back(k[i] % 16);
        if j % 2 == 0 {
            assert(j == 2 * i);
        } else {
            assert(j == 2 * i + 1);
        }
    }
    assert(vstd::utf8::is_ascii_chars(hx));
    let full = hx + sniff_extension();
    assert(vstd::utf8::is_ascii_chars(full));
    let b1 = encode_utf8(hx);
    let b2 = encode_utf8(full);
    assert(b1.len() == 32);
    assert(b2.len() == 38);
    assert(forall|j: int| 0 <= j < 32 ==> hx[j] == full[j]);
    // Bare text: no extension to strip.
    assert(b1.subrange(26, 32) != sniff_suffix_bytes()) by {
        let i = 13;
        lemma_hex_digit_reads_back(k[i] / 16);
        assert(b1.subrange(26, 32)[0] == b1[26]);
        assert(b1[26] == hx[26] as u8);
        assert(hx[26] == hex_digit(k[13] / 16, false));
    }
    assert(strip_sniff(b1) == b1);
    lemma_hex_text_reads_back(k, b1);
    assert(Seq::new(16, |i: int| hex_pair(b1[2 * i], b1[2 * i + 1])->0) =~= k);
    // Named file: the extension is stripped.
    assert(b2.subrange(32, 38) =~= sniff_suffix_bytes()) by {
        assert(full[32] == '.' && full[33] == 's' && full[34] == 'n' && full[35] == 'i' && full[36]
            == 'f' && full[37] == 'f');
    }
    let h2 = strip_sniff(b2);
    assert(h2 =~= b2.subrange(0, 32));
    lemma_hex_text_reads_back(k, h2);
    assert(Seq::new(16, |i: int| hex_pair(h2[2 * i], h2[2 * i + 1])->0) =~= k);
}

/// Layout of packed hex text in either case: two digits per byte.
proof fn lemma_hex_packed_in_layout(b: Seq<u8>, upper: bool)
    ensures
        hex_packed_in(b, upper).len() == 2 * b.len(),
        forall|i: int|
            0 <= i < b.len() ==> hex_packed_in(b, upper)[2 * i] == hex_digit(#[trigger] b[i] / 16, upper)
                && hex_packed_in(b, upper)[2 * i + 1] == hex_digit(b[i] % 16, upper),
    decreases b.len(),
{
    if b.len() > 0 {
        lemma_hex_packed_in_layout(b.drop_last(), upper);
        assert forall|i: int| 0 <= i < b.len() implies hex_packed_in(b, upper)[2 * i] == hex_digit(
            #[trigger] b[i] / 16,
            upper,
        ) && hex_packed_in(b, upper)[2 * i + 1] == hex_digit(b[i] % 16, upper) by {
            if i < b.len() - 1 {
                assert(b[i] == b.drop_last()[i]);
            }
        }
    }
}

/// A hex digit of either case is ASCII and reads back as its value.
proof fn lemma_any_hex_digit_reads_back(n: u8, upper: bool)
    requires
        n < 16,
    ensures
        (hex_digit(n, upper) as u32) < 128,
        hex_nibble(hex_digit(n, upper) as u8) == Some(n),
        hex_digit(n, upper) as u8 != 43,
        hex_digit(n, upper) as u8 != 0x2e,
{
}

/// The key's hex text in upper case leads back to the key as well.
pub proof fn lemma_upper_key_name_roundtrip(k: Seq<u8>)
    requires
        k.len() == 16,
    ensures
        key_from_hex(encode_utf8(hex_packed_in(k, true))) == Some(k),
{
    broadcast use vstd::utf8::is_ascii_chars_encode_utf8;

    lemma_hex_packed_in_layout(k, true);
    let hx = hex_packed_in(k, true);
    assert forall|j: int| 0 <= j < hx.len() implies '\0' <= #[trigger] hx[j] <= '\u{7f}' by {
        let i = j / 2;
        assert(0 <= i < 16);
        lemma_any_hex_digit_reads_back(k[i] / 16, true);
        lemma_any_hex_digit_reads_back(k[i] % 16, true);
        if j % 2 == 0 {
            assert(j == 2 * i);
        } else {
            assert(j == 2 * i + 1);
        }
    }
    assert(vstd::utf8::is_ascii_chars(hx));
    let b = encode_utf8(hx);
    assert(b.len() == 32);
    assert(b.subrange(26, 32) != sniff_suffix_bytes()) by {
        lemma_any_hex_digit_reads_back(k[13] / 16, true);
        assert(b.subrange(26, 32)[0] == b[26]);
        assert(b[26] == hx[26] as u8);
    }
    assert(strip_sniff(b) == b);
    assert forall|i: int| 0 <= i < 16 implies (#[trigger] hex_pair(b[2 * i], b[2 * i + 1])) == Some(k[i]) by {
        lemma_any_hex_digit_reads_back(k[i] / 16, true);
        lemma_any_hex_digit_reads_back(k[i] % 16, true);
        assert(b[2 * i] == hx[2 * i] as u8);
        assert(b[2 * i + 1] == hx[2 * i + 1] as u8);
    }
    assert(Seq::new(16, |i: int| hex_pair(b[2 * i], b[2 * i + 1])->0) =~= k);
}

} // verus!
