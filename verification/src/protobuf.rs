//! Schema-less reading of protobuf wire data: base-128 varints,
//! length-delimited payloads, the search for a numeric field (the packet id in
//! a packet head) and the generic decoding of a message into tokens.

use base64::Engine;
use vstd::prelude::*;
use vstd::utf8::*;

use crate::text::{
    decimal, parse_u64, parse_u64_seq, push_decimal, string_from_chars, to_chars, trim_chars, trim_seq,
    utf8_decode,
};

verus! {

// ---------------------------------------------------------------------------
// Wire primitives
// ---------------------------------------------------------------------------

/// Decoding of a varint from position `pos`, with `shift` bits and the value
/// `acc` already taken: the value and the position just after its last byte.
/// At most ten bytes are read (shifts 0, 7, ..., 63); a seven-bit group that
/// does not fit in 64 bits is cut off.
pub open spec fn varint_from(bytes: Seq<u8>, pos: int, shift: u32, acc: u64) -> Option<(u64, int)>
    decreases bytes.len() - pos,
{
    if 0 <= pos < bytes.len() && shift < 64 {
        let b = bytes[pos];
        let next = acc | (((b & 0x7f) as u64) << shift);
        if b & 0x80 == 0 {
            Some((next, pos + 1))
        } else {
            varint_from(bytes, pos + 1, (shift + 7) as u32, next)
        }
    } else {
        None
    }
}

/// The varint that starts at `pos`, and the position after it.
pub open spec fn varint_at(bytes: Seq<u8>, pos: int) -> Option<(u64, int)> {
    varint_from(bytes, pos, 0, 0)
}

/// A varint ends after the position it starts at, and inside the bytes.
pub proof fn lemma_varint_from_advances(bytes: Seq<u8>, pos: int, shift: u32, acc: u64)
    ensures
        varint_from(bytes, pos, shift, acc) matches Some((v, p)) ==> pos < p <= bytes.len(),
    decreases bytes.len() - pos,
{
    if 0 <= pos < bytes.len() && shift < 64 {
        let b = bytes[pos];
        let next = acc | (((b & 0x7f) as u64) << shift);
        if b & 0x80 != 0 {
            lemma_varint_from_advances(bytes, pos + 1, (shift + 7) as u32, next);
        }
    }
}

/// The little-endian `u64` in the eight bytes at `p`.
pub open spec fn le_u64(b: Seq<u8>, p: int) -> u64 {
    (b[p] as u64) | ((b[p + 1] as u64) << 8u64) | ((b[p + 2] as u64) << 16u64) | ((b[p + 3] as u64)
        << 24u64) | ((b[p + 4] as u64) << 32u64) | ((b[p + 5] as u64) << 40u64) | ((b[p + 6] as u64)
        << 48u64) | ((b[p + 7] as u64) << 56u64)
}

/// The little-endian `u32` in the four bytes at `p`.
pub open spec fn le_u32(b: Seq<u8>, p: int) -> u32 {
    (b[p] as u32) | ((b[p + 1] as u32) << 8u32) | ((b[p + 2] as u32) << 16u32) | ((b[p + 3] as u32)
        << 24u32)
}

/// The payload of a length-delimited value whose length varint starts at
/// `pos`: its start and end positions.
pub open spec fn len_delimited_at(bytes: Seq<u8>, pos: int) -> Option<(int, int)> {
    match varint_at(bytes, pos) {
        Some((len, p)) => if p + (len as usize) <= bytes.len() {
            Some((p, p + (len as usize)))
        } else {
            None
        },
        None => None,
    }
}

/// Where a value of wire type `wire` that starts at `pos` ends; `None` for a
/// truncated value or a wire type other than 0, 1, 2 and 5.
pub open spec fn skip_at(bytes: Seq<u8>, pos: int, wire: u8) -> Option<int> {
    if wire == 0 {
        match varint_at(bytes, pos) {
            Some((_, p)) => Some(p),
            None => None,
        }
    } else if wire == 1 {
        if pos + 8 <= bytes.len() {
            Some(pos + 8)
        } else {
            None
        }
    } else if wire == 2 {
        match len_delimited_at(bytes, pos) {
            Some((_, e)) => Some(e),
            None => None,
        }
    } else if wire == 5 {
        if pos + 4 <= bytes.len() {
            Some(pos + 4)
        } else {
            None
        }
    } else {
        None
    }
}

/// A length-delimited payload ends after the position its length starts at.
pub proof fn lemma_len_delimited_advances(bytes: Seq<u8>, pos: int)
    ensures
        len_delimited_at(bytes, pos) matches Some((s, e)) ==> pos < s <= e <= bytes.len(),
{
    lemma_varint_from_advances(bytes, pos, 0, 0);
}

/// A skipped value ends after the position it starts at.
pub proof fn lemma_skip_advances(bytes: Seq<u8>, pos: int, wire: u8)
    requires
        0 <= pos,
    ensures
        skip_at(bytes, pos, wire) matches Some(q) ==> pos < q <= bytes.len(),
{
    lemma_varint_from_advances(bytes, pos, 0, 0);
    lemma_len_delimited_advances(bytes, pos);
}

/// Where a failed varint read leaves the cursor that started at `start`:
/// past the bytes it read, which are the next ten bytes or as many as there
/// are.
pub open spec fn varint_fail_end(len: int, start: int) -> int {
    if start >= len {
        start
    } else if start + 10 <= len {
        start + 10
    } else {
        len
    }
}

/// Reads the varint at `*cursor` and moves the cursor past it; when there is
/// none, the cursor is left past the bytes read.
pub fn read_varint(bytes: &[u8], cursor: &mut usize) -> (res: Option<u64>)
    ensures
        match varint_at(bytes@, *old(cursor) as int) {
            Some((v, p)) => res == Some(v) && *final(cursor) == p,
            None => res is None && *final(cursor) == varint_fail_end(bytes@.len() as int, *old(cursor) as int),
        },
{
    let mut value: u64 = 0;
    let mut shift: u32 = 0;
    let ghost start = *cursor as int;
    while *cursor < bytes.len() && shift < 64
        invariant
            varint_from(bytes@, *cursor as int, shift, value) == varint_at(bytes@, start),
            start == *old(cursor) as int,
            shift == 7 * (*cursor as int - start),
            shift <= 70,
            start < bytes@.len() ==> *cursor <= bytes@.len(),
            start >= bytes@.len() ==> *cursor as int == start,
        decreases bytes.len() - *cursor,
    {
        let ghost pos = *cursor as int;
        let ghost prev = value;
        let byte = bytes[*cursor];
        *cursor += 1;
        value = value | (((byte & 0x7F) as u64) << shift);
        assert(varint_from(bytes@, pos, shift, prev) == if byte & 0x80 == 0 {
            Some((value, pos + 1))
        } else {
            varint_from(bytes@, pos + 1, (shift + 7) as u32, value)
        });
        if byte & 0x80 == 0 {
            return Some(value);
        }
        shift += 7;
    }
    proof {
        let d = *cursor as int - start;
        if shift >= 64 {
            assert(d == 10);
        }
        if start < bytes@.len() {
            assert(*cursor as int == varint_fail_end(bytes@.len() as int, start));
        }
    }
    None
}

/// Moves the cursor `amount` bytes on if that stays within `len`.
pub fn advance(cursor: &mut usize, len: usize, amount: usize) -> (ok: bool)
    ensures
        ok == (*old(cursor) + amount <= len),
        ok ==> *final(cursor) == *old(cursor) + amount,
        !ok ==> *final(cursor) == *old(cursor),
{
    if *cursor > len || amount > len - *cursor {
        return false;
    }
    *cursor += amount;
    true
}

/// Reads a length-delimited payload at `*cursor` and moves the cursor past it.
pub fn read_len_delimited<'a>(bytes: &'a [u8], cursor: &mut usize) -> (res: Option<&'a [u8]>)
    ensures
        match len_delimited_at(bytes@, *old(cursor) as int) {
            Some((s, e)) => res matches Some(d) && d@ == bytes@.subrange(s, e) && *final(cursor)
                == e,
            None => res is None,
        },
{
    proof {
        lemma_varint_from_advances(bytes@, *cursor as int, 0, 0);
    }
    let len = match read_varint(bytes, cursor) {
        Some(v) => v as usize,
        None => return None,
    };
    if len > bytes.len() - *cursor {
        return None;
    }
    let data = &bytes[*cursor..*cursor + len];
    *cursor += len;
    Some(data)
}

/// Moves the cursor past a value of wire type `wire`.
pub fn skip_wire_value(bytes: &[u8], cursor: &mut usize, wire: u8) -> (ok: bool)
    ensures
        match skip_at(bytes@, *old(cursor) as int, wire) {
            Some(q) => ok && *final(cursor) == q,
            None => !ok,
        },
{
    if wire == 0 {
        read_varint(bytes, cursor).is_some()
    } else if wire == 1 {
        advance(cursor, bytes.len(), 8)
    } else if wire == 2 {
        read_len_delimited(bytes, cursor).is_some()
    } else if wire == 5 {
        advance(cursor, bytes.len(), 4)
    } else {
        false
    }
}

// ---------------------------------------------------------------------------
// Searching for a numeric field
// ---------------------------------------------------------------------------

/// The first value of field `target` met in a walk over `bytes` at nesting
/// level `depth`: a walk that reads each key, stops at the first key of field
/// `target`, and otherwise looks inside each length-delimited value (as a
/// nested message, one level deeper) before going on. Levels deeper than 3
/// give nothing, and so does malformed or truncated data met on the way.
pub open spec fn find_field(bytes: Seq<u8>, target: u64, depth: nat) -> Option<u64>
    decreases 4 - depth, 1int, 0int,
{
    if depth > 3 {
        None
    } else {
        find_field_from(bytes, target, depth, 0)
    }
}

/// The walk of `find_field`, from position `pos` on.
pub open spec fn find_field_from(bytes: Seq<u8>, target: u64, depth: nat, pos: int) -> Option<u64>
    decreases 4 - depth, 0int, bytes.len() - pos,
{
    if depth > 3 || pos < 0 || pos >= bytes.len() {
        None
    } else {
        match varint_at(bytes, pos) {
            None => None,
            Some((key, p)) => {
                let wire = (key & 7) as u8;
                if key >> 3u64 == target {
                    if wire == 0 {
                        match varint_at(bytes, p) {
                            Some((v, _)) => Some(v),
                            None => None,
                        }
                    } else if wire == 1 && p + 8 <= bytes.len() {
                        Some(le_u64(bytes, p))
                    } else if wire == 2 {
                        len_delimited_number(bytes, target, depth + 1, p)
                    } else if wire == 5 && p + 4 <= bytes.len() {
                        Some(le_u32(bytes, p) as u64)
                    } else {
                        None
                    }
                } else if wire == 2 {
                    match len_delimited_at(bytes, p) {
                        None => None,
                        Some((s, e)) => match find_field(bytes.subrange(s, e), target, depth + 1) {
                            Some(v) => Some(v),
                            None => {
                                proof {
                                    lemma_varint_from_advances(bytes, pos, 0, 0);
                                    lemma_len_delimited_advances(bytes, p);
                                }
                                find_field_from(bytes, target, depth, e)
                            },
                        },
                    }
                } else {
                    match skip_at(bytes, p, wire) {
                        None => None,
                        Some(q) => {
                            proof {
                                lemma_varint_from_advances(bytes, pos, 0, 0);
                                lemma_skip_advances(bytes, p, wire);
                            }
                            find_field_from(bytes, target, depth, q)
                        },
                    }
                }
            },
        }
    }
}

/// The value of the target field when it is length-delimited: the number its
/// payload spells as text (UTF-8, surrounding whitespace ignored, as
/// `u64::from_str` reads it), else the first value of the target field found
/// inside the payload at level `depth`.
pub open spec fn len_delimited_number(bytes: Seq<u8>, target: u64, depth: nat, pos: int) -> Option<
    u64,
>
    decreases 4 - depth, 2int, 0int,
{
    match len_delimited_at(bytes, pos) {
        None => None,
        Some((s, e)) => {
            let data = bytes.subrange(s, e);
            if valid_utf8(data) && parse_u64_seq(trim_seq(decode_utf8(data))) is Some {
                parse_u64_seq(trim_seq(decode_utf8(data)))
            } else {
                find_field(data, target, depth)
            }
        },
    }
}

/// Reads the length-delimited value at `*cursor` as a number: its text when
/// it is a decimal number, else the target field inside it.
fn read_len_delimited_number(bytes: &[u8], cursor: &mut usize, depth: usize, target_field: u64) -> (res: Option<u64>)
    requires
        depth <= 4,
    ensures
        res == len_delimited_number(bytes@, target_field, depth as nat, *old(cursor) as int),
    decreases 4 - depth, 2int, 0int,
{
    let data = match read_len_delimited(bytes, cursor) {
        Some(d) => d,
        None => return None,
    };
    if let Some(text) = utf8_decode(data) {
        let chars = to_chars(text.as_str());
        let trimmed = trim_chars(&chars);
        if let Some(value) = parse_u64(&trimmed) {
            return Some(value);
        }
    }
    find_protobuf_field_number(data, target_field, depth)
}

/// The first value of field `target_field`, searching nested messages down to
/// level 3 (see `find_field`).
pub fn find_protobuf_field_number(bytes: &[u8], target_field: u64, depth: usize) -> (res: Option<u64>)
    ensures
        res == find_field(bytes@, target_field, depth as nat),
    decreases 4 - depth, 1int, 0int,
{
    if depth > 3 {
        return None;
    }
    let mut cursor: usize = 0;
    while cursor < bytes.len()
        invariant
            depth <= 3,
            find_field_from(bytes@, target_field, depth as nat, cursor as int) == find_field(
                bytes@,
                target_field,
                depth as nat,
            ),
        decreases bytes.len() - cursor,
    {
        let ghost pos = cursor as int;
        proof {
            lemma_varint_from_advances(bytes@, pos, 0, 0);
        }
        let key = match read_varint(bytes, &mut cursor) {
            Some(k) => k,
            None => return None,
        };
        let field = key >> 3;
        let wire = (key & 0x07) as u8;
        if field == target_field {
            if wire == 0 {
                return read_varint(bytes, &mut cursor);
            } else if wire == 1 && bytes.len() >= 8 && cursor <= bytes.len() - 8 {
                let c = cursor;
                return Some(
                    (bytes[c] as u64) | ((bytes[c + 1] as u64) << 8u64) | ((bytes[c + 2] as u64)
                        << 16u64) | ((bytes[c + 3] as u64) << 24u64) | ((bytes[c + 4] as u64)
                        << 32u64) | ((bytes[c + 5] as u64) << 40u64) | ((bytes[c + 6] as u64)
                        << 48u64) | ((bytes[c + 7] as u64) << 56u64),
                );
            } else if wire == 2 {
                return read_len_delimited_number(bytes, &mut cursor, depth + 1, target_field);
            } else if wire == 5 && bytes.len() >= 4 && cursor <= bytes.len() - 4 {
                let c = cursor;
                let v: u32 = (bytes[c] as u32) | ((bytes[c + 1] as u32) << 8u32) | ((bytes[c
                    + 2] as u32) << 16u32) | ((bytes[c + 3] as u32) << 24u32);
                return Some(v as u64);
            } else {
                return None;
            }
        }
        if wire == 2 {
            let ghost p = cursor as int;
            proof {
                lemma_len_delimited_advances(bytes@, p);
            }
            let data = match read_len_delimited(bytes, &mut cursor) {
                Some(d) => d,
                None => return None,
            };
            if let Some(value) = find_protobuf_field_number(data, target_field, depth + 1) {
                return Some(value);
            }
        } else {
            let ghost p = cursor as int;
            proof {
                lemma_skip_advances(bytes@, p, wire);
            }
            if !skip_wire_value(bytes, &mut cursor, wire) {
                return None;
            }
        }
    }
    None
}

/// The LEB128 encoding of `v`: seven bits a byte, low bits first, the top
/// bit set on every byte but the last.
pub open spec fn leb128(v: u64) -> Seq<u8>
    decreases v,
{
    if v < 128 {
        seq![v as u8]
    } else {
        proof {
            assert(v >= 128 ==> (v >> 7u64) < v) by (bit_vector);
        }
        seq![((v & 0x7f) | 0x80) as u8] + leb128(v >> 7u64)
    }
}

/// A LEB128 encoding read at `pos`, with `shift` bits and the lower bits
/// `acc` already taken, adds the encoded value above them.
proof fn lemma_leb128_reads(b: Seq<u8>, pos: int, w: u64, shift: u32, acc: u64)
    requires
        0 <= pos,
        pos + leb128(w).len() <= b.len(),
        b.subrange(pos, pos + leb128(w).len()) == leb128(w),
        shift < 64,
        (w << (shift as u64)) >> (shift as u64) == w,
        acc >> (shift as u64) == 0,
    ensures
        varint_from(b, pos, shift, acc) == Some((acc | (w << (shift as u64)), pos + leb128(w).len())),
    decreases w,
{
    let s = shift as u64;
    let e = leb128(w);
    assert(b[pos] == e[0]) by {
        assert(b.subrange(pos, pos + e.len())[0] == b[pos]);
    }
    if w < 128 {
        let byte = w as u8;
        assert(byte & 0x80 == 0 && (((byte & 0x7f) as u64) << s) == (w << s)) by (bit_vector)
            requires
                w < 128,
                byte == w as u8,
        ;
    } else {
        let byte = ((w & 0x7f) | 0x80) as u8;
        let next = acc | (((byte & 0x7f) as u64) << s);
        let w2 = w >> 7u64;
        assert(byte & 0x80 != 0) by (bit_vector)
            requires
                byte == ((w & 0x7f) | 0x80) as u8,
        ;
        assert(s + 7 < 64 && ((w2 << (s + 7)) >> (s + 7)) == w2 && next >> (s + 7) == 0 && (next | (w2
            << (s + 7))) == (acc | (w << s))) by (bit_vector)
            requires
                w >= 128,
                s < 64,
                (w << s) >> s == w,
                acc >> s == 0,
                byte == ((w & 0x7f) | 0x80) as u8,
                next == acc | (((byte & 0x7f) as u64) << s),
                w2 == w >> 7u64,
        ;
        let e2 = leb128(w2);
        assert(e =~= seq![byte] + e2);
        assert(b.subrange(pos + 1, pos + 1 + e2.len()) =~= e2) by {
            assert forall|j: int| 0 <= j < e2.len() implies b.subrange(pos + 1, pos + 1 + e2.len())[j] == e2[j] by {
                assert(b.subrange(pos, pos + e.len())[j + 1] == e[j + 1]);
            }
        }
        assert(((shift + 7) as u32) as u64 == s + 7);
        assert(w >= 128 ==> w2 < w) by (bit_vector)
            requires
                w2 == w >> 7u64,
        ;
        lemma_leb128_reads(b, pos + 1, w2, (shift + 7) as u32, next);
    }
}

/// A head that starts with field 1 and the LEB128 encoding of `v` carries
/// `v` as its packet id, whatever follows.
pub proof fn lemma_pid_of_encoded(v: u64, rest: Seq<u8>)
    ensures
        head_pid(seq![0x08u8] + leb128(v) + rest) == v,
{
    let h = seq![0x08u8] + leb128(v) + rest;
    let e = leb128(v);
    assert(h.subrange(1, 1 + e.len() as int) =~= e);
    assert((v << 0u64) >> 0u64 == v && 0u64 >> 0u64 == 0 && (0u64 | (v << 0u64)) == v) by (bit_vector);
    lemma_leb128_reads(h, 1, v, 0, 0);
    lemma_leading_pid(h);
}

/// Reading the LEB128 encoding of `v` (as `read_varint` does, see
/// `varint_at`), wherever it stands and whatever follows, gives `v` and ends
/// just after the encoding.
pub proof fn lemma_varint_reads_leb128(pre: Seq<u8>, v: u64, rest: Seq<u8>)
    ensures
        varint_at(pre + leb128(v) + rest, pre.len() as int) == Some((v, (pre.len() + leb128(v).len()) as int)),
{
    let b = pre + leb128(v) + rest;
    let e = leb128(v);
    assert(b.subrange(pre.len() as int, pre.len() + e.len() as int) =~= e);
    assert((v << 0u64) >> 0u64 == v && 0u64 >> 0u64 == 0 && (0u64 | (v << 0u64)) == v) by (bit_vector);
    lemma_leb128_reads(b, pre.len() as int, v, 0, 0);
}

/// A head that starts with field 1 as a varint carries that varint's value
/// as its packet id.
pub proof fn lemma_leading_pid(h: Seq<u8>)
    requires
        h.len() > 0,
        h[0] == 0x08,
        varint_at(h, 1) is Some,
    ensures
        head_pid(h) == varint_at(h, 1).unwrap().0,
{
    let b = h[0];
    assert(b & 0x80 == 0 && ((b & 0x7f) as u64) << 0u32 == 8u64 && (0u64 | 8u64) == 8u64) by (bit_vector)
        requires
            b == 0x08u8,
    ;
    assert(varint_at(h, 0) == Some((8u64, 1int)));
    assert((8u64 >> 3u64) == 1u64 && ((8u64 & 7u64) as u8) == 0u8) by (bit_vector);
}

/// The packet id carried in a packet head: its field 1, or 0 when there is
/// none.
pub open spec fn head_pid(head: Seq<u8>) -> u64 {
    match find_field(head, 1, 0) {
        Some(v) => v,
        None => 0,
    }
}

/// The packet id carried in a packet head: its field 1, or 0 when there is
/// none.
pub fn packet_head_pid(head: &[u8]) -> (pid: u64)
    ensures
        pid == head_pid(head@),
{
    match find_protobuf_field_number(head, 1, 0) {
        Some(v) => v,
        None => 0,
    }
}

// ---------------------------------------------------------------------------
// Generic decoding
// ---------------------------------------------------------------------------

/// The character of the six-bit value `n` in the standard base64 alphabet
/// (RFC 4648): `A`-`Z`, `a`-`z`, `0`-`9`, `+`, `/`.
pub open spec fn b64_char(n: u8) -> char {
    if n < 26 {
        ((65 + n) as u8) as char
    } else if n < 52 {
        ((71 + n) as u8) as char
    } else if n < 62 {
        ((n - 4) as u8) as char
    } else if n == 62 {
        '+'
    } else {
        '/'
    }
}

/// The standard base64 text of `bytes` (RFC 4648, with `=` padding): each
/// three bytes as four characters of six bits each, a last one or two bytes
/// as two or three characters and `=` padding.
pub open spec fn base64_standard(bytes: Seq<u8>) -> Seq<char>
    decreases bytes.len(),
{
    if bytes.len() == 0 {
        Seq::empty()
    } else if bytes.len() == 1 {
        let a = bytes[0];
        seq![b64_char(a >> 2u8), b64_char((a & 3) << 4u8), '=', '=']
    } else if bytes.len() == 2 {
        let a = bytes[0];
        let b = bytes[1];
        seq![b64_char(a >> 2u8), b64_char(((a & 3) << 4u8) | (b >> 4u8)), b64_char((b & 15) << 2u8), '=']
    } else {
        let a = bytes[0];
        let b = bytes[1];
        let c = bytes[2];
        seq![
            b64_char(a >> 2u8),
            b64_char(((a & 3) << 4u8) | (b >> 4u8)),
            b64_char(((b & 15) << 2u8) | (c >> 6u8)),
            b64_char(c & 63),
        ] + base64_standard(bytes.skip(3))
    }
}

/// The standard base64 text of `bytes`.
pub fn base64_encode(bytes: &[u8]) -> (s: String)
    requires
        bytes@.len() <= isize::MAX,
    ensures
        s@ == base64_standard(bytes@),
{
    standard_base64(bytes)
}

/// Encodes `bytes` with `base64::engine::general_purpose::STANDARD`.
/// Trusted: the result is the standard RFC 4648 encoding with padding, as the
/// crate documents for this engine. The crate panics only when the encoded
/// length overflows `usize`, which a slice of at most `isize::MAX` bytes
/// cannot reach.
#[verifier::external_body]
fn standard_base64(bytes: &[u8]) -> (s: String)
    requires
        bytes@.len() <= isize::MAX,
    ensures
        s@ == base64_standard(bytes@),
{
    base64::engine::general_purpose::STANDARD.encode(bytes)
}

/// One step of a depth-first walk over a decoded message. A message is a
/// sequence of fields; each field is a `Field` token with its number followed
/// by its value. A nested message is enclosed in `Open` and `Close`. A field
/// that occurs more than once in a message is written once, where it first
/// occurs, with all its values in order between `ArrayOpen` and `ArrayClose`.
#[derive(Clone, Debug, PartialEq, Eq)]
pub enum RawToken {
    Field(u64),
    Varint(u64),
    Fixed64(u64),
    Fixed32(u32),
    Text(String),
    Base64(String),
    Open,
    Close,
    ArrayOpen,
    ArrayClose,
}

/// `RawToken` with its strings as character sequences.
pub enum RawTokenView {
    Field(u64),
    Varint(u64),
    Fixed64(u64),
    Fixed32(u32),
    Text(Seq<char>),
    Base64(Seq<char>),
    Open,
    Close,
    ArrayOpen,
    ArrayClose,
}

impl View for RawToken {
    type V = RawTokenView;

    open spec fn view(&self) -> RawTokenView {
        match self {
            RawToken::Field(f) => RawTokenView::Field(*f),
            RawToken::Varint(v) => RawTokenView::Varint(*v),
            RawToken::Fixed64(v) => RawTokenView::Fixed64(*v),
            RawToken::Fixed32(v) => RawTokenView::Fixed32(*v),
            RawToken::Text(s) => RawTokenView::Text(s@),
            RawToken::Base64(s) => RawTokenView::Base64(s@),
            RawToken::Open => RawTokenView::Open,
            RawToken::Close => RawTokenView::Close,
            RawToken::ArrayOpen => RawTokenView::ArrayOpen,
            RawToken::ArrayClose => RawTokenView::ArrayClose,
        }
    }
}

/// The views of a token sequence.
pub open spec fn tokens_view(tokens: Seq<RawToken>) -> Seq<RawTokenView> {
    tokens.map_values(|t: RawToken| t@)
}

/// The tokens of the message `bytes` at nesting level `depth`: its fields
/// grouped by number, in the order in which each number first occurs; `None`
/// when the data is not a well-formed message (a truncated value, a wire
/// type other than 0, 1, 2 and 5) or the level is deeper than 4.
pub open spec fn decode_message(bytes: Seq<u8>, depth: nat) -> Option<Seq<RawTokenView>>
    decreases 5 - depth, 1int, 0int,
{
    if depth > 4 {
        None
    } else {
        match fields_from(bytes, depth, 0) {
            Some(fs) => Some(emit_groups(group_fields(fs))),
            None => None,
        }
    }
}

/// The fields of `bytes` from position `pos` on, in order, each as its
/// number and the tokens of its value.
pub open spec fn fields_from(bytes: Seq<u8>, depth: nat, pos: int) -> Option<Seq<(u64, Seq<RawTokenView>)>>
    decreases 5 - depth, 0int, bytes.len() - pos,
{
    if depth > 4 || pos < 0 {
        None
    } else if pos >= bytes.len() {
        Some(Seq::empty())
    } else {
        match varint_at(bytes, pos) {
            None => None,
            Some((key, p)) => {
                let wire = (key & 7) as u8;
                match skip_at(bytes, p, wire) {
                    None => None,
                    Some(q) => {
                        proof {
                            lemma_varint_from_advances(bytes, pos, 0, 0);
                            lemma_skip_advances(bytes, p, wire);
                        }
                        match fields_from(bytes, depth, q) {
                            None => None,
                            Some(rest) => Some(
                                seq![(key >> 3u64, field_value(bytes, depth + 1, wire, p))] + rest,
                            ),
                        }
                    },
                }
            },
        }
    }
}

/// The value tokens of a field of wire type `wire` whose value starts at `p`
/// (a value that `skip_at` finds complete); `depth` is the level of a nested
/// message in it.
pub open spec fn field_value(bytes: Seq<u8>, depth: nat, wire: u8, p: int) -> Seq<RawTokenView>
    decreases 5 - depth, 3int, 0int,
{
    if wire == 0 {
        match varint_at(bytes, p) {
            Some((v, _)) => seq![RawTokenView::Varint(v)],
            None => Seq::empty(),
        }
    } else if wire == 1 {
        seq![RawTokenView::Fixed64(le_u64(bytes, p))]
    } else if wire == 2 {
        match len_delimited_at(bytes, p) {
            Some((s, e)) => length_delimited_value(bytes.subrange(s, e), depth),
            None => Seq::empty(),
        }
    } else {
        seq![RawTokenView::Fixed32(le_u32(bytes, p))]
    }
}

/// The tokens of a length-delimited payload read at level `depth`: a nested
/// message when it decodes as one, else its text when it is UTF-8, else its
/// base64 text.
pub open spec fn length_delimited_value(data: Seq<u8>, depth: nat) -> Seq<RawTokenView>
    decreases 5 - depth, 2int, 0int,
{
    match decode_message(data, depth) {
        Some(t) => seq![RawTokenView::Open] + t + seq![RawTokenView::Close],
        None => if valid_utf8(data) {
            seq![RawTokenView::Text(decode_utf8(data))]
        } else {
            seq![RawTokenView::Base64(base64_standard(data))]
        },
    }
}

/// The place of the group of field `f` in `g`: the first group of that
/// field, if any.
pub open spec fn group_index<V>(g: Seq<(u64, Seq<V>)>, f: u64) -> Option<int> {
    if exists|j: int| 0 <= j < g.len() && #[trigger] g[j].0 == f {
        Some(choose|j: int|
            0 <= j < g.len() && g[j].0 == f && forall|k: int| 0 <= k < j ==> #[trigger] g[k].0 != f)
    } else {
        None
    }
}

/// `g` with the value `x.1` of field `x.0` added: at the end of that field's
/// group, or as a new group at the end.
pub open spec fn add_to_group<V>(g: Seq<(u64, Seq<V>)>, x: (u64, V)) -> Seq<(u64, Seq<V>)> {
    match group_index(g, x.0) {
        Some(j) => g.update(j, (x.0, g[j].1.push(x.1))),
        None => g.push((x.0, seq![x.1])),
    }
}

/// The fields `fs` grouped by number: one group per number, in the order of
/// first occurrence, each with that number's values in order.
pub open spec fn group_fields<V>(fs: Seq<(u64, V)>) -> Seq<(u64, Seq<V>)>
    decreases fs.len(),
{
    if fs.len() == 0 {
        Seq::empty()
    } else {
        add_to_group(group_fields(fs.drop_last()), fs.last())
    }
}

/// The token sequences `vs` one after the other.
pub open spec fn concat_tokens(vs: Seq<Seq<RawTokenView>>) -> Seq<RawTokenView>
    decreases vs.len(),
{
    if vs.len() == 0 {
        Seq::empty()
    } else {
        vs[0] + concat_tokens(vs.drop_first())
    }
}

/// The tokens of one group: the field number, then its value, or all its
/// values between `ArrayOpen` and `ArrayClose` when there is more than one.
pub open spec fn group_tokens(x: (u64, Seq<Seq<RawTokenView>>)) -> Seq<RawTokenView> {
    seq![RawTokenView::Field(x.0)] + if x.1.len() == 1 {
        x.1[0]
    } else {
        seq![RawTokenView::ArrayOpen] + concat_tokens(x.1) + seq![RawTokenView::ArrayClose]
    }
}

/// The tokens of the groups `g`, one group after the other.
pub open spec fn emit_groups(g: Seq<(u64, Seq<Seq<RawTokenView>>)>) -> Seq<RawTokenView>
    decreases g.len(),
{
    if g.len() == 0 {
        Seq::empty()
    } else {
        group_tokens(g[0]) + emit_groups(g.drop_first())
    }
}

/// The view of one group of value token vectors.
pub open spec fn group_view(g: (u64, Vec<Vec<RawToken>>)) -> (u64, Seq<Seq<RawTokenView>>) {
    (g.0, g.1@.map_values(|v: Vec<RawToken>| tokens_view(v@)))
}

/// The views of groups of value token vectors.
pub open spec fn groups_view(gs: Seq<(u64, Vec<Vec<RawToken>>)>) -> Seq<(u64, Seq<Seq<RawTokenView>>)> {
    gs.map_values(|g: (u64, Vec<Vec<RawToken>>)| group_view(g))
}

/// A group of `f` with none of `f` before it is the first one.
proof fn lemma_group_index_first<V>(g: Seq<(u64, Seq<V>)>, f: u64, j: int)
    requires
        0 <= j < g.len(),
        g[j].0 == f,
        forall|k: int| 0 <= k < j ==> #[trigger] g[k].0 != f,
    ensures
        group_index(g, f) == Some(j),
{
    let i = choose|i: int| 0 <= i < g.len() && g[i].0 == f && forall|k: int| 0 <= k < i ==> #[trigger] g[k].0 != f;
    assert(0 <= i < g.len() && g[i].0 == f && forall|k: int| 0 <= k < i ==> #[trigger] g[k].0 != f);
    if i < j {
        assert(g[i].0 != f);
    } else if i > j {
        assert(g[j].0 != f);
    }
}

/// Adds the value `value` of field `field` to `groups` (see `add_to_group`).
fn add_field(groups: &mut Vec<(u64, Vec<Vec<RawToken>>)>, field: u64, value: Vec<RawToken>)
    ensures
        groups_view(final(groups)@) == add_to_group(groups_view(old(groups)@), (field, tokens_view(value@))),
{
    let ghost g = groups_view(groups@);
    let ghost tv = tokens_view(value@);
    let mut j: usize = 0;
    while j < groups.len()
        invariant
            j <= groups@.len(),
            groups@ == old(groups)@,
            g == groups_view(groups@),
            tv == tokens_view(value@),
            forall|k: int| 0 <= k < j ==> #[trigger] g[k].0 != field,
        decreases groups@.len() - j,
    {
        assert(g[j as int].0 == groups@[j as int].0);
        if groups[j].0 == field {
            proof {
                lemma_group_index_first(g, field, j as int);
            }
            let (f, mut vs) = groups.remove(j);
            let ghost before = vs@;
            vs.push(value);
            assert(vs@.map_values(|v: Vec<RawToken>| tokens_view(v@)) =~= before.map_values(
                |v: Vec<RawToken>| tokens_view(v@),
            ).push(tv));
            groups.insert(j, (f, vs));
            assert(groups_view(groups@) =~= g.update(j as int, (field, g[j as int].1.push(tv))));
            return;
        }
        j += 1;
    }
    let mut vs: Vec<Vec<RawToken>> = Vec::new();
    vs.push(value);
    assert(vs@.map_values(|v: Vec<RawToken>| tokens_view(v@)) =~= seq![tv]);
    groups.push((field, vs));
    assert(groups_view(groups@) =~= g.push((field, seq![tv])));
}

/// The tokens of `groups` (see `emit_groups`).
fn emit_group_tokens(groups: Vec<(u64, Vec<Vec<RawToken>>)>) -> (out: Vec<RawToken>)
    ensures
        tokens_view(out@) == emit_groups(groups_view(groups@)),
{
    let ghost all = groups_view(groups@);
    let mut groups = groups;
    let mut out: Vec<RawToken> = Vec::new();
    while groups.len() > 0
        invariant
            emit_groups(all) == tokens_view(out@) + emit_groups(groups_view(groups@)),
        decreases groups@.len(),
    {
        let ghost current = groups_view(groups@);
        let ghost start = tokens_view(out@);
        let (f, mut vs) = groups.remove(0);
        assert(groups_view(groups@) =~= current.drop_first());
        let ghost values = vs@.map_values(|v: Vec<RawToken>| tokens_view(v@));
        assert(current[0] == (f, values));
        out.push(RawToken::Field(f));
        if vs.len() == 1 {
            let mut v = vs.remove(0);
            assert(tokens_view(v@) == values[0]);
            out.append(&mut v);
        } else {
            assert(values.len() != 1);
            out.push(RawToken::ArrayOpen);
            let ghost base = tokens_view(out@);
            assert(base =~= start + seq![RawTokenView::Field(f), RawTokenView::ArrayOpen]);
            while vs.len() > 0
                invariant
                    base + concat_tokens(values) == tokens_view(out@) + concat_tokens(
                        vs@.map_values(|v: Vec<RawToken>| tokens_view(v@)),
                    ),
                decreases vs@.len(),
            {
                let ghost rem = vs@.map_values(|v: Vec<RawToken>| tokens_view(v@));
                let ghost before = tokens_view(out@);
                let mut v = vs.remove(0);
                assert(vs@.map_values(|v: Vec<RawToken>| tokens_view(v@)) =~= rem.drop_first());
                assert(tokens_view(v@) == rem[0]);
                out.append(&mut v);
                assert(tokens_view(out@) =~= before + rem[0]);
                assert(before + concat_tokens(rem) =~= tokens_view(out@) + concat_tokens(rem.drop_first()));
            }
            assert(concat_tokens(vs@.map_values(|v: Vec<RawToken>| tokens_view(v@))) =~= Seq::<RawTokenView>::empty());
            assert(tokens_view(out@) =~= base + concat_tokens(values));
            let ghost mid = tokens_view(out@);
            out.push(RawToken::ArrayClose);
            assert(tokens_view(out@) =~= mid.push(RawTokenView::ArrayClose));
            assert(tokens_view(out@) =~= start + (seq![RawTokenView::Field(f)] + (seq![RawTokenView::ArrayOpen]
                + concat_tokens(values) + seq![RawTokenView::ArrayClose])));
        }
        assert(tokens_view(out@) =~= start + group_tokens(current[0]));
        assert(emit_groups(current) == group_tokens(current[0]) + emit_groups(current.drop_first()));
        assert(start + emit_groups(current) =~= tokens_view(out@) + emit_groups(current.drop_first()));
    }
    assert(emit_groups(groups_view(groups@)) =~= Seq::<RawTokenView>::empty());
    assert(tokens_view(out@) + Seq::<RawTokenView>::empty() =~= tokens_view(out@));
    out
}

/// Decodes a message without its schema (see `decode_message`).
pub fn decode_raw_protobuf(bytes: &[u8], depth: usize) -> (res: Option<Vec<RawToken>>)
    requires
        bytes@.len() <= isize::MAX,
    ensures
        match decode_message(bytes@, depth as nat) {
            Some(t) => res matches Some(v) && tokens_view(v@) == t,
            None => res is None,
        },
        depth > 4 ==> res is None,
    decreases 5 - depth, 1int, 0int,
{
    if depth > 4 {
        return None;
    }
    let mut cursor: usize = 0;
    let mut groups: Vec<(u64, Vec<Vec<RawToken>>)> = Vec::new();
    let ghost mut flat: Seq<(u64, Seq<RawTokenView>)> = Seq::empty();
    while cursor < bytes.len()
        invariant
            depth <= 4,
            cursor <= bytes.len(),
            bytes@.len() <= isize::MAX,
            fields_from(bytes@, depth as nat, 0) == match fields_from(bytes@, depth as nat, cursor as int) {
                Some(rest) => Some(flat + rest),
                None => None,
            },
            groups_view(groups@) == group_fields(flat),
        decreases bytes.len() - cursor,
    {
        let ghost pos = cursor as int;
        proof {
            lemma_varint_from_advances(bytes@, pos, 0, 0);
        }
        let key = match read_varint(bytes, &mut cursor) {
            Some(k) => k,
            None => return None,
        };
        let ghost p = cursor as int;
        proof {
            lemma_varint_from_advances(bytes@, p, 0, 0);
            lemma_len_delimited_advances(bytes@, p);
        }
        let field = key >> 3;
        let wire = (key & 0x07) as u8;
        let mut value: Vec<RawToken> = Vec::new();
        if wire == 0 {
            match read_varint(bytes, &mut cursor) {
                Some(v) => value.push(RawToken::Varint(v)),
                None => return None,
            }
        } else if wire == 1 && bytes.len() >= 8 && cursor <= bytes.len() - 8 {
            let c = cursor;
            let v = (bytes[c] as u64) | ((bytes[c + 1] as u64) << 8u64) | ((bytes[c + 2] as u64)
                << 16u64) | ((bytes[c + 3] as u64) << 24u64) | ((bytes[c + 4] as u64) << 32u64)
                | ((bytes[c + 5] as u64) << 40u64) | ((bytes[c + 6] as u64) << 48u64) | ((bytes[c
                + 7] as u64) << 56u64);
            cursor += 8;
            value.push(RawToken::Fixed64(v));
        } else if wire == 2 {
            let data = match read_len_delimited(bytes, &mut cursor) {
                Some(d) => d,
                None => return None,
            };
            match decode_raw_protobuf(data, depth + 1) {
                Some(mut nested) => {
                    let ghost inner = tokens_view(nested@);
                    value.push(RawToken::Open);
                    value.append(&mut nested);
                    value.push(RawToken::Close);
                    assert(tokens_view(value@) =~= seq![RawTokenView::Open] + inner + seq![
                        RawTokenView::Close,
                    ]);
                },
                None => match utf8_decode(data) {
                    Some(text) => value.push(RawToken::Text(text)),
                    None => value.push(RawToken::Base64(base64_encode(data))),
                },
            }
        } else if wire == 5 && bytes.len() >= 4 && cursor <= bytes.len() - 4 {
            let c = cursor;
            let v: u32 = (bytes[c] as u32) | ((bytes[c + 1] as u32) << 8u32) | ((bytes[c + 2] as u32)
                << 16u32) | ((bytes[c + 3] as u32) << 24u32);
            cursor += 4;
            value.push(RawToken::Fixed32(v));
        } else {
            return None;
        }
        let ghost vals = tokens_view(value@);
        assert(skip_at(bytes@, p, wire) == Some(cursor as int));
        assert(field_value(bytes@, (depth + 1) as nat, wire, p) == vals);
        assert(fields_from(bytes@, depth as nat, pos) == match fields_from(
            bytes@,
            depth as nat,
            cursor as int,
        ) {
            None => None,
            Some(rest) => Some(seq![(field, vals)] + rest),
        });
        add_field(&mut groups, field, value);
        proof {
            let before = flat;
            flat = flat.push((field, vals));
            assert(flat.drop_last() =~= before);
            assert(forall|rest: Seq<(u64, Seq<RawTokenView>)>|
                before + (seq![(field, vals)] + rest) =~= flat + rest);
        }
    }
    assert(fields_from(bytes@, depth as nat, cursor as int) == Some(Seq::<(u64, Seq<RawTokenView>)>::empty()));
    assert(flat + Seq::<(u64, Seq<RawTokenView>)>::empty() =~= flat);
    Some(emit_group_tokens(groups))
}

/// The tokens of the message in `bytes`, or no tokens when it does not decode.
pub fn raw_protobuf_tokens(bytes: &[u8]) -> (tokens: Vec<RawToken>)
    requires
        bytes@.len() <= isize::MAX,
    ensures
        tokens_view(tokens@) == match decode_message(bytes@, 0) {
            Some(t) => t,
            None => Seq::empty(),
        },
{
    match decode_raw_protobuf(bytes, 0) {
        Some(t) => t,
        None => Vec::new(),
    }
}


/// A decoded message as a tree, as the inspector shows it: numbers, texts,
/// nested messages (fields in order of first occurrence) and the values of a
/// field that occurs more than once.
#[derive(Debug)]
pub enum RawValue {
    Number(u64),
    Text(String),
    Message(Vec<(u64, RawValue)>),
    Array(Vec<RawValue>),
}

/// `RawValue` with its texts as character sequences.
pub enum RawValueView {
    Number(u64),
    Text(Seq<char>),
    Message(Seq<(u64, RawValueView)>),
    Array(Seq<RawValueView>),
}

/// The view of a tree.
pub open spec fn raw_view(v: RawValue) -> RawValueView
    decreases v,
{
    match v {
        RawValue::Number(n) => RawValueView::Number(n),
        RawValue::Text(s) => RawValueView::Text(s@),
        RawValue::Message(fs) => RawValueView::Message(
            Seq::new(
                fs@.len(),
                |i: int|
                    if 0 <= i < fs@.len() {
                        proof {
                            assert(decreases_to!(fs => fs@));
                            assert(decreases_to!(fs@ => fs@[i]));
                            assert(decreases_to!(fs@[i] => fs@[i].1));
                        }
                        (fs@[i].0, raw_view(fs@[i].1))
                    } else {
                        (0u64, RawValueView::Number(0))
                    },
            ),
        ),
        RawValue::Array(vs) => RawValueView::Array(
            Seq::new(
                vs@.len(),
                |i: int|
                    if 0 <= i < vs@.len() {
                        proof {
                            assert(decreases_to!(vs => vs@));
                            assert(decreases_to!(vs@ => vs@[i]));
                        }
                        raw_view(vs@[i])
                    } else {
                        RawValueView::Number(0)
                    },
            ),
        ),
    }
}

/// The views of the fields of a message tree.
pub open spec fn fields_view(fs: Seq<(u64, RawValue)>) -> Seq<(u64, RawValueView)> {
    fs.map_values(|f: (u64, RawValue)| (f.0, raw_view(f.1)))
}

/// The view of a message is the message of its fields' views.
proof fn lemma_message_view(fs: Vec<(u64, RawValue)>)
    ensures
        raw_view(RawValue::Message(fs)) == RawValueView::Message(fields_view(fs@)),
{
    assert(match raw_view(RawValue::Message(fs)) {
        RawValueView::Message(m) => m =~= fields_view(fs@),
        _ => false,
    });
}

/// The view of a list of values is the list of their views.
proof fn lemma_array_view(vs: Vec<RawValue>)
    ensures
        raw_view(RawValue::Array(vs)) == RawValueView::Array(vs@.map_values(|v: RawValue| raw_view(v))),
{
    assert(match raw_view(RawValue::Array(vs)) {
        RawValueView::Array(m) => m =~= vs@.map_values(|v: RawValue| raw_view(v)),
        _ => false,
    });
}

/// The message tree of `bytes` at nesting level `depth`: its fields grouped
/// by number, in the order in which each number first occurs, a number with
/// more than one value holding them as an array; `None` where
/// `decode_message` finds no message.
pub open spec fn decode_tree(bytes: Seq<u8>, depth: nat) -> Option<Seq<(u64, RawValueView)>>
    decreases 5 - depth, 1int, 0int,
{
    if depth > 4 {
        None
    } else {
        match tree_fields_from(bytes, depth, 0) {
            Some(fs) => Some(tree_message(group_fields(fs))),
            None => None,
        }
    }
}

/// The fields of `bytes` from position `pos` on, in order, each as its
/// number and its value as a tree.
pub open spec fn tree_fields_from(bytes: Seq<u8>, depth: nat, pos: int) -> Option<Seq<(u64, RawValueView)>>
    decreases 5 - depth, 0int, bytes.len() - pos,
{
    if depth > 4 || pos < 0 {
        None
    } else if pos >= bytes.len() {
        Some(Seq::empty())
    } else {
        match varint_at(bytes, pos) {
            None => None,
            Some((key, p)) => {
                let wire = (key & 7) as u8;
                match skip_at(bytes, p, wire) {
                    None => None,
                    Some(q) => {
                        proof {
                            lemma_varint_from_advances(bytes, pos, 0, 0);
                            lemma_skip_advances(bytes, p, wire);
                        }
                        match tree_fields_from(bytes, depth, q) {
                            None => None,
                            Some(rest) => Some(
                                seq![(key >> 3u64, tree_field_value(bytes, depth + 1, wire, p))] + rest,
                            ),
                        }
                    },
                }
            },
        }
    }
}

/// The value of a field of wire type `wire` whose value starts at `p` (a
/// value that `skip_at` finds complete): a number, or a length-delimited
/// payload read at level `depth`.
pub open spec fn tree_field_value(bytes: Seq<u8>, depth: nat, wire: u8, p: int) -> RawValueView
    decreases 5 - depth, 3int, 0int,
{
    if wire == 0 {
        match varint_at(bytes, p) {
            Some((v, _)) => RawValueView::Number(v),
            None => RawValueView::Number(0),
        }
    } else if wire == 1 {
        RawValueView::Number(le_u64(bytes, p))
    } else if wire == 2 {
        match len_delimited_at(bytes, p) {
            Some((s, e)) => tree_payload(bytes.subrange(s, e), depth),
            None => RawValueView::Number(0),
        }
    } else {
        RawValueView::Number(le_u32(bytes, p) as u64)
    }
}

/// A length-delimited payload read at level `depth`: a nested message when it
/// decodes as one, else its text when it is UTF-8, else its base64 text.
pub open spec fn tree_payload(data: Seq<u8>, depth: nat) -> RawValueView
    decreases 5 - depth, 2int, 0int,
{
    match decode_tree(data, depth) {
        Some(fs) => RawValueView::Message(fs),
        None => if valid_utf8(data) {
            RawValueView::Text(decode_utf8(data))
        } else {
            RawValueView::Text(base64_standard(data))
        },
    }
}

/// The value of a group: its one value, or all its values as an array.
pub open spec fn group_value(g: (u64, Seq<RawValueView>)) -> RawValueView {
    if g.1.len() == 1 {
        g.1[0]
    } else {
        RawValueView::Array(g.1)
    }
}

/// The fields of a message made of groups.
pub open spec fn tree_message(gs: Seq<(u64, Seq<RawValueView>)>) -> Seq<(u64, RawValueView)> {
    gs.map_values(|g: (u64, Seq<RawValueView>)| (g.0, group_value(g)))
}

/// The views of groups of values.
pub open spec fn value_groups_view(gs: Seq<(u64, Vec<RawValue>)>) -> Seq<(u64, Seq<RawValueView>)> {
    gs.map_values(|g: (u64, Vec<RawValue>)| (g.0, g.1@.map_values(|v: RawValue| raw_view(v))))
}

/// Adds the value `value` of field `field` to `groups` (see `add_to_group`).
fn add_value(groups: &mut Vec<(u64, Vec<RawValue>)>, field: u64, value: RawValue)
    ensures
        value_groups_view(final(groups)@) == add_to_group(value_groups_view(old(groups)@), (field, raw_view(value))),
{
    let ghost g = value_groups_view(groups@);
    let ghost tv = raw_view(value);
    let mut j: usize = 0;
    while j < groups.len()
        invariant
            j <= groups@.len(),
            groups@ == old(groups)@,
            g == value_groups_view(groups@),
            tv == raw_view(value),
            forall|k: int| 0 <= k < j ==> #[trigger] g[k].0 != field,
        decreases groups@.len() - j,
    {
        assert(g[j as int].0 == groups@[j as int].0);
        if groups[j].0 == field {
            proof {
                lemma_group_index_first(g, field, j as int);
            }
            let (f, mut vs) = groups.remove(j);
            let ghost before = vs@;
            vs.push(value);
            assert(vs@.map_values(|v: RawValue| raw_view(v)) =~= before.map_values(|v: RawValue| raw_view(v)).push(tv));
            groups.insert(j, (f, vs));
            assert(value_groups_view(groups@) =~= g.update(j as int, (field, g[j as int].1.push(tv))));
            return;
        }
        j += 1;
    }
    let mut vs: Vec<RawValue> = Vec::new();
    vs.push(value);
    assert(vs@.map_values(|v: RawValue| raw_view(v)) =~= seq![tv]);
    groups.push((field, vs));
    assert(value_groups_view(groups@) =~= g.push((field, seq![tv])));
}

/// The fields of the message made of `groups` (see `tree_message`).
fn groups_message(groups: Vec<(u64, Vec<RawValue>)>) -> (out: Vec<(u64, RawValue)>)
    ensures
        fields_view(out@) == tree_message(value_groups_view(groups@)),
{
    let ghost all = value_groups_view(groups@);
    let mut groups = groups;
    let mut out: Vec<(u64, RawValue)> = Vec::new();
    while groups.len() > 0
        invariant
            tree_message(all) =~= fields_view(out@) + tree_message(value_groups_view(groups@)),
        decreases groups@.len(),
    {
        let ghost current = value_groups_view(groups@);
        let ghost before = fields_view(out@);
        let (f, mut vs) = groups.remove(0);
        assert(value_groups_view(groups@) =~= current.drop_first());
        let ghost values = vs@.map_values(|v: RawValue| raw_view(v));
        assert(current[0] == (f, values));
        if vs.len() == 1 {
            let v = vs.remove(0);
            out.push((f, v));
        } else {
            proof {
                lemma_array_view(vs);
            }
            out.push((f, RawValue::Array(vs)));
        }
        assert(fields_view(out@) =~= before.push((f, group_value(current[0]))));
        assert(tree_message(current) =~= seq![(f, group_value(current[0]))] + tree_message(current.drop_first()));
    }
    out
}

/// Decodes the message in `bytes` at nesting level `depth` as a tree (see
/// `decode_tree`).
pub fn decode_raw_value(bytes: &[u8], depth: usize) -> (res: Option<Vec<(u64, RawValue)>>)
    requires
        bytes@.len() <= isize::MAX,
    ensures
        match decode_tree(bytes@, depth as nat) {
            Some(t) => res matches Some(v) && fields_view(v@) == t,
            None => res is None,
        },
        depth > 4 ==> res is None,
    decreases 5 - depth, 1int, 0int,
{
    if depth > 4 {
        return None;
    }
    let mut cursor: usize = 0;
    let mut groups: Vec<(u64, Vec<RawValue>)> = Vec::new();
    let ghost mut flat: Seq<(u64, RawValueView)> = Seq::empty();
    while cursor < bytes.len()
        invariant
            depth <= 4,
            cursor <= bytes.len(),
            bytes@.len() <= isize::MAX,
            tree_fields_from(bytes@, depth as nat, 0) == match tree_fields_from(bytes@, depth as nat, cursor as int) {
                Some(rest) => Some(flat + rest),
                None => None,
            },
            value_groups_view(groups@) == group_fields(flat),
        decreases bytes.len() - cursor,
    {
        let ghost pos = cursor as int;
        proof {
            lemma_varint_from_advances(bytes@, pos, 0, 0);
        }
        let key = match read_varint(bytes, &mut cursor) {
            Some(k) => k,
            None => return None,
        };
        let ghost p = cursor as int;
        proof {
            lemma_varint_from_advances(bytes@, p, 0, 0);
            lemma_len_delimited_advances(bytes@, p);
        }
        let field = key >> 3;
        let wire = (key & 0x07) as u8;
        let value: RawValue;
        if wire == 0 {
            match read_varint(bytes, &mut cursor) {
                Some(v) => {
                    value = RawValue::Number(v);
                },
                None => return None,
            }
        } else if wire == 1 && bytes.len() >= 8 && cursor <= bytes.len() - 8 {
            let c = cursor;
            let v = (bytes[c] as u64) | ((bytes[c + 1] as u64) << 8u64) | ((bytes[c + 2] as u64)
                << 16u64) | ((bytes[c + 3] as u64) << 24u64) | ((bytes[c + 4] as u64) << 32u64)
                | ((bytes[c + 5] as u64) << 40u64) | ((bytes[c + 6] as u64) << 48u64) | ((bytes[c
                + 7] as u64) << 56u64);
            cursor += 8;
            value = RawValue::Number(v);
        } else if wire == 2 {
            let data = match read_len_delimited(bytes, &mut cursor) {
                Some(d) => d,
                None => return None,
            };
            match decode_raw_value(data, depth + 1) {
                Some(nested) => {
                    proof {
                        lemma_message_view(nested);
                    }
                    value = RawValue::Message(nested);
                },
                None => match utf8_decode(data) {
                    Some(text) => {
                        value = RawValue::Text(text);
                    },
                    None => {
                        value = RawValue::Text(base64_encode(data));
                    },
                },
            }
        } else if wire == 5 && bytes.len() >= 4 && cursor <= bytes.len() - 4 {
            let c = cursor;
            let v: u32 = (bytes[c] as u32) | ((bytes[c + 1] as u32) << 8u32) | ((bytes[c + 2] as u32)
                << 16u32) | ((bytes[c + 3] as u32) << 24u32);
            cursor += 4;
            value = RawValue::Number(v as u64);
        } else {
            return None;
        }
        let ghost val = raw_view(value);
        assert(skip_at(bytes@, p, wire) == Some(cursor as int));
        assert(tree_field_value(bytes@, (depth + 1) as nat, wire, p) == val);
        assert(tree_fields_from(bytes@, depth as nat, pos) == match tree_fields_from(
            bytes@,
            depth as nat,
            cursor as int,
        ) {
            None => None,
            Some(rest) => Some(seq![(field, val)] + rest),
        });
        add_value(&mut groups, field, value);
        proof {
            let before = flat;
            flat = flat.push((field, val));
            assert(flat.drop_last() =~= before);
            assert(forall|rest: Seq<(u64, RawValueView)>| before + (seq![(field, val)] + rest) =~= flat + rest);
        }
    }
    assert(tree_fields_from(bytes@, depth as nat, cursor as int) == Some(Seq::<(u64, RawValueView)>::empty()));
    assert(flat + Seq::<(u64, RawValueView)>::empty() =~= flat);
    Some(groups_message(groups))
}

#[verifier::external_type_specification]
#[verifier::external_body]
pub struct ExJsonValue(serde_json::Value);

/// What `serde_json::Value::from` makes of the number `n`.
pub uninterp spec fn json_number(n: u64) -> serde_json::Value;

/// The JSON number `n` (`serde_json::Value::from`). Trusted: the value is a
/// function of `n` alone.
#[verifier::external_body]
pub(crate) fn number_value(n: u64) -> (v: serde_json::Value)
    ensures
        v == json_number(n),
{
    serde_json::Value::from(n)
}

/// The JSON string of the characters `s` (`serde_json::Value::String`).
pub uninterp spec fn json_string(s: Seq<char>) -> serde_json::Value;

/// The JSON string `s` (`serde_json::Value::String`). Trusted: the value is
/// a function of the characters of `s` alone.
#[verifier::external_body]
pub(crate) fn string_value(s: String) -> (v: serde_json::Value)
    ensures
        v == json_string(s@),
{
    serde_json::Value::String(s)
}

/// The JSON array of `items`, in order (`serde_json::Value::Array`).
pub uninterp spec fn json_array(items: Seq<serde_json::Value>) -> serde_json::Value;

/// The JSON array of `items` (`serde_json::Value::Array`). Trusted: the value
/// is a function of the items and their order alone.
#[verifier::external_body]
fn array_value(items: Vec<serde_json::Value>) -> (v: serde_json::Value)
    ensures
        v == json_array(items@),
{
    serde_json::Value::Array(items)
}

/// The JSON object of the key and value pairs `entries`, inserted in order
/// into a `serde_json::Map` (`Value::Object`).
pub uninterp spec fn json_object(entries: Seq<(Seq<char>, serde_json::Value)>) -> serde_json::Value;

/// The JSON object of `entries` (`serde_json::Map` collected from the pairs,
/// then `Value::Object`). Trusted: the value is a function of the keys' characters,
/// the values and their order alone.
#[verifier::external_body]
pub(crate) fn object_value(entries: Vec<(String, serde_json::Value)>) -> (v: serde_json::Value)
    ensures
        v == json_object(entries@.map_values(|e: (String, serde_json::Value)| (e.0@, e.1))),
{
    serde_json::Value::Object(entries.into_iter().collect())
}

/// What `serde_json::to_string_pretty` writes for the value `v`.
pub uninterp spec fn json_pretty(v: serde_json::Value) -> Seq<char>;

/// `v` written by `serde_json::to_string_pretty` (empty if it fails, which
/// it does not for a `Value`). Trusted: the text is a function of `v` alone;
/// its layout is not stated here.
#[verifier::external_body]
pub(crate) fn pretty_json(v: &serde_json::Value) -> (s: String)
    ensures
        s@ == json_pretty(*v),
{
    serde_json::to_string_pretty(v).unwrap_or_default()
}

/// The JSON value of a tree: numbers and texts as such, a message as an
/// object keyed by the decimal field numbers, a list of values as an array.
pub open spec fn raw_json(v: RawValueView) -> serde_json::Value
    decreases v,
{
    match v {
        RawValueView::Number(n) => json_number(n),
        RawValueView::Text(s) => json_string(s),
        RawValueView::Message(fs) => json_object(json_entries(fs)),
        RawValueView::Array(vs) => json_array(json_items(vs)),
    }
}

/// The object entries of the fields `fs`: each field's decimal number and
/// the JSON value of its value.
pub open spec fn json_entries(fs: Seq<(u64, RawValueView)>) -> Seq<(Seq<char>, serde_json::Value)>
    decreases fs,
{
    Seq::new(
        fs.len(),
        |i: int|
            if 0 <= i < fs.len() {
                proof {
                    assert(decreases_to!(fs => fs[i]));
                    assert(decreases_to!(fs[i] => fs[i].1));
                }
                (decimal(fs[i].0 as nat), raw_json(fs[i].1))
            } else {
                (Seq::empty(), json_number(0))
            },
    )
}

/// The JSON values of the values `vs`.
pub open spec fn json_items(vs: Seq<RawValueView>) -> Seq<serde_json::Value>
    decreases vs,
{
    Seq::new(
        vs.len(),
        |i: int|
            if 0 <= i < vs.len() {
                proof {
                    assert(decreases_to!(vs => vs[i]));
                }
                raw_json(vs[i])
            } else {
                json_number(0)
            },
    )
}

/// The pretty JSON text of a tree.
pub open spec fn raw_json_pretty(v: RawValueView) -> Seq<char> {
    json_pretty(raw_json(v))
}

/// Whether `e` is the object entry of the field `f`.
pub open spec fn entry_of(e: (String, serde_json::Value), f: (u64, RawValueView)) -> bool {
    e.0@ == decimal(f.0 as nat) && e.1 == raw_json(f.1)
}

/// The JSON value of the tree `v` (see `raw_json`).
pub fn raw_value_json(v: &RawValue) -> (j: serde_json::Value)
    ensures
        j == raw_json(raw_view(*v)),
    decreases v,
{
    match v {
        RawValue::Number(n) => {
            assert(raw_view(*v) == RawValueView::Number(*n));
            number_value(*n)
        },
        RawValue::Text(s) => {
            assert(raw_view(*v) == RawValueView::Text(s@));
            string_value(s.clone())
        },
        RawValue::Message(fs) => {
            let ghost fv = fields_view(fs@);
            proof {
                lemma_message_view(*fs);
            }
            let mut entries: Vec<(String, serde_json::Value)> = Vec::new();
            for i in 0..fs.len()
                invariant
                    fv == fields_view(fs@),
                    *v == RawValue::Message(*fs),
                    entries@.len() == i,
                    forall|k: int| 0 <= k < i ==> entry_of(#[trigger] entries@[k], fv[k]),
            {
                let mut key: Vec<char> = Vec::new();
                push_decimal(&mut key, fs[i].0);
                assert(key@ =~= decimal(fs@[i as int].0 as nat));
                proof {
                    assert(decreases_to!(*v => (*v)->Message_0));
                    assert(decreases_to!(fs => fs@));
                    assert(decreases_to!(fs@ => fs@[i as int]));
                    assert(decreases_to!(fs@[i as int] => fs@[i as int].1));
                }
                let j = raw_value_json(&fs[i].1);
                let name = string_from_chars(&key);
                let ghost old_entries = entries@;
                assert(fv[i as int] == (fs@[i as int].0, raw_view(fs@[i as int].1)));
                entries.push((name, j));
                assert(entries@[i as int].0@ == decimal(fv[i as int].0 as nat));
                assert(entries@[i as int].1 == raw_json(fv[i as int].1));
                assert(entry_of(entries@[i as int], fv[i as int]));
                assert forall|m: int| 0 <= m < i + 1 implies entry_of(#[trigger] entries@[m], fv[m]) by {
                    if m < i {
                        assert(entries@[m] == old_entries[m]);
                    }
                }
            }
            let ghost pairs = entries@.map_values(|e: (String, serde_json::Value)| (e.0@, e.1));
            assert(pairs =~= json_entries(fv));
            object_value(entries)
        },
        RawValue::Array(vs) => {
            proof {
                lemma_array_view(*vs);
            }
            let ghost av = vs@.map_values(|x: RawValue| raw_view(x));
            let mut items: Vec<serde_json::Value> = Vec::new();
            for i in 0..vs.len()
                invariant
                    av == vs@.map_values(|x: RawValue| raw_view(x)),
                    *v == RawValue::Array(*vs),
                    items@.len() == i,
                    forall|k: int| 0 <= k < i ==> #[trigger] items@[k] == raw_json(av[k]),
            {
                proof {
                    assert(decreases_to!(*v => (*v)->Array_0));
                    assert(decreases_to!(vs => vs@));
                    assert(decreases_to!(vs@ => vs@[i as int]));
                }
                let j = raw_value_json(&vs[i]);
                items.push(j);
            }
            assert(items@ =~= json_items(av));
            array_value(items)
        },
    }
}

/// The fields of the message in `bytes` as pretty JSON, as the inspector
/// shows a packet head: the tree of `decode_tree`, or the empty message when
/// the bytes are not a message.
pub fn raw_protobuf_json(bytes: &[u8]) -> (s: String)
    requires
        bytes@.len() <= isize::MAX,
    ensures
        s@ == raw_json_pretty(
            RawValueView::Message(
                match decode_tree(bytes@, 0) {
                    Some(t) => t,
                    None => Seq::empty(),
                },
            ),
        ),
{
    let fields = match decode_raw_value(bytes, 0) {
        Some(fs) => fs,
        None => Vec::new(),
    };
    proof {
        lemma_message_view(fields);
        if decode_tree(bytes@, 0) is None {
            assert(fields_view(fields@) =~= Seq::<(u64, RawValueView)>::empty());
        }
    }
    let tree = RawValue::Message(fields);
    pretty_json(&raw_value_json(&tree))
}

} // verus!

