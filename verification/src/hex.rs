//! Hexadecimal text of byte strings.

use vstd::prelude::*;

use crate::sniff_file::hex_pair;
use crate::text::string_from_chars;

verus! {

/// The hexadecimal digit of `n` (below 16), in upper or lower case.
pub open spec fn hex_digit(n: u8, upper: bool) -> char {
    if n < 10 {
        ((48 + n) as u8) as char
    } else if upper {
        ((55 + n) as u8) as char
    } else {
        ((87 + n) as u8) as char
    }
}

/// The two hexadecimal digits of `b`.
pub open spec fn byte_hex(b: u8, upper: bool) -> Seq<char> {
    seq![hex_digit(b / 16, upper), hex_digit(b % 16, upper)]
}

/// The bytes as upper-case hex pairs separated by single spaces ("0A FF").
pub open spec fn hex_spaced(bytes: Seq<u8>) -> Seq<char>
    decreases bytes.len(),
{
    if bytes.len() == 0 {
        Seq::empty()
    } else if bytes.len() == 1 {
        byte_hex(bytes[0], true)
    } else {
        hex_spaced(bytes.drop_last()) + seq![' '] + byte_hex(bytes.last(), true)
    }
}

/// The bytes as lower-case hex pairs with nothing between them ("0aff").
pub open spec fn hex_packed(bytes: Seq<u8>) -> Seq<char>
    decreases bytes.len(),
{
    if bytes.len() == 0 {
        Seq::empty()
    } else {
        hex_packed(bytes.drop_last()) + byte_hex(bytes.last(), false)
    }
}

/// The bytes as hex pairs with nothing between them, in upper or lower case.
pub open spec fn hex_packed_in(bytes: Seq<u8>, upper: bool) -> Seq<char>
    decreases bytes.len(),
{
    if bytes.len() == 0 {
        Seq::empty()
    } else {
        hex_packed_in(bytes.drop_last(), upper) + byte_hex(bytes.last(), upper)
    }
}

/// Appends the two hex digits of `b` to `out`.
pub fn push_byte_hex(out: &mut Vec<char>, b: u8, upper: bool)
    ensures
        final(out)@ == old(out)@ + byte_hex(b, upper),
{
    let hi = b / 16;
    let lo = b % 16;
    let base: u8 = if upper {
        55
    } else {
        87
    };
    let c1 = if hi < 10 {
        (48 + hi) as char
    } else {
        (base + hi) as char
    };
    let c2 = if lo < 10 {
        (48 + lo) as char
    } else {
        (base + lo) as char
    };
    out.push(c1);
    out.push(c2);
}

/// The bytes as upper-case hex pairs separated by spaces.
pub fn hex_encode(bytes: &[u8]) -> (s: String)
    ensures
        s@ == hex_spaced(bytes@),
{
    let mut out: Vec<char> = Vec::new();
    let n = bytes.len();
    for i in 0..n
        invariant
            n == bytes@.len(),
            out@ == hex_spaced(bytes@.take(i as int)),
    {
        assert(bytes@.take(i + 1).drop_last() == bytes@.take(i as int));
        if i > 0 {
            out.push(' ');
        }
        push_byte_hex(&mut out, bytes[i], true);
    }
    assert(bytes@.take(n as int) == bytes@);
    string_from_chars(&out)
}

/// The bytes as lower-case hex pairs with nothing between them.
pub fn hex_lower_packed(bytes: &[u8]) -> (s: String)
    ensures
        s@ == hex_packed(bytes@),
{
    let mut out: Vec<char> = Vec::new();
    let n = bytes.len();
    for i in 0..n
        invariant
            n == bytes@.len(),
            out@ == hex_packed(bytes@.take(i as int)),
    {
        assert(bytes@.take(i + 1).drop_last() == bytes@.take(i as int));
        push_byte_hex(&mut out, bytes[i], false);
    }
    assert(bytes@.take(n as int) == bytes@);
    string_from_chars(&out)
}

/// The spaced hex text of `n` bytes (what `hex_encode` returns) has `3n - 1`
/// characters (none for no bytes): byte `i` as two upper-case digits at
/// `3i`, which read back as that byte, and a space after every pair but the
/// last; so it holds only `0`-`9`, `A`-`F` and spaces.
pub proof fn lemma_hex_spaced_layout(b: Seq<u8>)
    ensures
        hex_spaced(b).len() == if b.len() == 0 {
            0
        } else {
            3 * b.len() - 1
        },
        forall|i: int|
            0 <= i < b.len() ==> hex_spaced(b)[3 * i] == hex_digit(#[trigger] b[i] / 16, true) && hex_spaced(
                b,
            )[3 * i + 1] == hex_digit(b[i] % 16, true) && hex_pair(
                hex_spaced(b)[3 * i] as u8,
                hex_spaced(b)[3 * i + 1] as u8,
            ) == Some(b[i]),
        forall|i: int| 0 <= i < b.len() - 1 ==> #[trigger] hex_spaced(b)[3 * i + 2] == ' ',
        forall|j: int|
            0 <= j < hex_spaced(b).len() ==> ('0' <= #[trigger] hex_spaced(b)[j] <= '9' || 'A' <= hex_spaced(b)[j]
                <= 'F' || hex_spaced(b)[j] == ' '),
{
    lemma_hex_spaced_parts(b);
    lemma_hex_spaced_alphabet(b);
}

/// Every character of the spaced hex text of `b` is a digit `0`-`9`, a
/// letter `A`-`F` or a space.
pub proof fn lemma_hex_spaced_alphabet(b: Seq<u8>)
    ensures
        forall|j: int|
            0 <= j < hex_spaced(b).len() ==> ('0' <= #[trigger] hex_spaced(b)[j] <= '9' || 'A' <= hex_spaced(b)[j]
                <= 'F' || hex_spaced(b)[j] == ' '),
{
    lemma_hex_spaced_parts(b);
    assert forall|j: int| 0 <= j < hex_spaced(b).len() implies ('0' <= #[trigger] hex_spaced(b)[j] <= '9'
        || 'A' <= hex_spaced(b)[j] <= 'F' || hex_spaced(b)[j] == ' ') by {
        let i = j / 3;
        assert(0 <= i < b.len());
        let _ = b[i];
        if j % 3 == 2 {
            assert(j == 3 * i + 2);
        } else if j % 3 == 0 {
            assert(j == 3 * i);
        } else {
            assert(j == 3 * i + 1);
        }
    }
}

/// The layout of the spaced hex text (see `lemma_hex_spaced_layout`).
proof fn lemma_hex_spaced_parts(b: Seq<u8>)
    ensures
        hex_spaced(b).len() == if b.len() == 0 {
            0
        } else {
            3 * b.len() - 1
        },
        forall|i: int|
            0 <= i < b.len() ==> hex_spaced(b)[3 * i] == hex_digit(#[trigger] b[i] / 16, true) && hex_spaced(
                b,
            )[3 * i + 1] == hex_digit(b[i] % 16, true) && hex_pair(
                hex_spaced(b)[3 * i] as u8,
                hex_spaced(b)[3 * i + 1] as u8,
            ) == Some(b[i]),
        forall|i: int| 0 <= i < b.len() - 1 ==> #[trigger] hex_spaced(b)[3 * i + 2] == ' ',
    decreases b.len(),
{
    if b.len() > 1 {
        let d = b.drop_last();
        lemma_hex_spaced_parts(d);
        assert forall|i: int| 0 <= i < b.len() implies hex_spaced(b)[3 * i] == hex_digit(
            #[trigger] b[i] / 16,
            true,
        ) && hex_spaced(b)[3 * i + 1] == hex_digit(b[i] % 16, true) && hex_pair(
            hex_spaced(b)[3 * i] as u8,
            hex_spaced(b)[3 * i + 1] as u8,
        ) == Some(b[i]) by {
            if i < b.len() - 1 {
                assert(b[i] == d[i]);
            }
        }
        assert forall|i: int| 0 <= i < b.len() - 1 implies #[trigger] hex_spaced(b)[3 * i + 2] == ' ' by {
            if i < b.len() - 2 {
                assert(hex_spaced(b)[3 * i + 2] == hex_spaced(d)[3 * i + 2]);
            }
        }
    } else if b.len() == 1 {
        assert(hex_pair(hex_digit(b[0] / 16, true) as u8, hex_digit(b[0] % 16, true) as u8) == Some(b[0]));
    }
}

} // verus!
