//! Character and string helpers shared by the rest of the library.

use vstd::prelude::*;
use vstd::utf8::{decode_utf8, valid_utf8};

verus! {

/// The Unicode `White_Space` characters, which are exactly what
/// `char::is_whitespace` accepts.
pub open spec fn spec_is_whitespace(c: char) -> bool {
    let u = c as u32;
    ||| 0x09 <= u <= 0x0D
    ||| u == 0x20
    ||| u == 0x85
    ||| u == 0xA0
    ||| u == 0x1680
    ||| 0x2000 <= u <= 0x200A
    ||| u == 0x2028
    ||| u == 0x2029
    ||| u == 0x202F
    ||| u == 0x205F
    ||| u == 0x3000
}

/// Whether `c` is a whitespace character.
pub fn is_whitespace(c: char) -> (b: bool)
    ensures
        b == spec_is_whitespace(c),
{
    let u = c as u32;
    (0x09 <= u && u <= 0x0D) || u == 0x20 || u == 0x85 || u == 0xA0 || u == 0x1680 || (0x2000
        <= u && u <= 0x200A) || u == 0x2028 || u == 0x2029 || u == 0x202F || u == 0x205F || u
        == 0x3000
}

/// `s` without its leading whitespace.
pub open spec fn trim_start_seq(s: Seq<char>) -> Seq<char>
    decreases s.len(),
{
    if s.len() > 0 && spec_is_whitespace(s[0]) {
        trim_start_seq(s.drop_first())
    } else {
        s
    }
}

/// `s` without its trailing whitespace.
pub open spec fn trim_end_seq(s: Seq<char>) -> Seq<char>
    decreases s.len(),
{
    if s.len() > 0 && spec_is_whitespace(s.last()) {
        trim_end_seq(s.drop_last())
    } else {
        s
    }
}

/// `s` without leading and trailing whitespace, as `str::trim` gives it.
pub open spec fn trim_seq(s: Seq<char>) -> Seq<char> {
    trim_end_seq(trim_start_seq(s))
}

/// The character of the decimal digit `d`.
pub open spec fn digit_char(d: u64) -> char {
    ((48 + d) as u8) as char
}

/// The decimal representation of `n`, without sign or leading zeros.
pub open spec fn decimal(n: nat) -> Seq<char>
    decreases n,
{
    if n < 10 {
        seq![digit_char(n as u64)]
    } else {
        decimal(n / 10).push(digit_char((n % 10) as u64))
    }
}

/// The characters of `s`, in order.
pub fn to_chars(s: &str) -> (v: Vec<char>)
    ensures
        v@ == s@,
{
    let mut v: Vec<char> = Vec::new();
    for c in it: s.chars()
        invariant
            v@ == it.seq().take(it.index() as int),
            it.seq() == s@,
    {
        v.push(c);
    }
    v
}

/// The string made of `chars`, collected by std's `FromIterator<char>` for
/// `String`. Trusted: the string holds exactly those characters, in order.
#[verifier::external_body]
pub(crate) fn string_from_chars(chars: &Vec<char>) -> (s: String)
    ensures
        s@ == chars@,
{
    chars.iter().collect()
}

/// Appends the decimal digits of `n` to `out`.
pub fn push_decimal(out: &mut Vec<char>, n: u64)
    ensures
        final(out)@ == old(out)@ + decimal(n as nat),
    decreases n,
{
    if n >= 10 {
        push_decimal(out, n / 10);
    }
    let d: u64 = n % 10;
    out.push(((48 + d) as u8) as char);
    assert(decimal(n as nat) == if n < 10 { seq![digit_char(n)] } else { decimal((n / 10) as nat).push(digit_char(n % 10)) });
}

/// The decimal representation of `h`, with a `-` when it is negative.
pub open spec fn signed_decimal(h: i64) -> Seq<char> {
    if h < 0 {
        seq!['-'] + decimal((-h) as nat)
    } else {
        decimal(h as nat)
    }
}

/// Appends the decimal representation of `h` to `out`.
pub fn push_signed_decimal(out: &mut Vec<char>, h: i64)
    ensures
        final(out)@ == old(out)@ + signed_decimal(h),
{
    let ghost start = out@;
    if h < 0 {
        out.push('-');
        let magnitude = (-(h + 1)) as u64 + 1;
        push_decimal(out, magnitude);
        assert(out@ =~= start + signed_decimal(h));
    } else {
        push_decimal(out, h as u64);
    }
}

/// Whether two strings are equal.
pub fn same_str(a: &str, b: &str) -> (r: bool)
    ensures
        r == (a@ == b@),
{
    compare_text(&to_chars(a), &to_chars(b)) == TextOrder::Equal
}

/// The characters `s[i..j]` as a new vector.
pub fn copy_range(s: &Vec<char>, i: usize, j: usize) -> (r: Vec<char>)
    requires
        i <= j <= s.len(),
    ensures
        r@ == s@.subrange(i as int, j as int),
{
    let mut r: Vec<char> = Vec::new();
    let mut k = i;
    while k < j
        invariant
            i <= k <= j <= s.len(),
            r@ == s@.subrange(i as int, k as int),
        decreases j - k,
    {
        r.push(s[k]);
        k += 1;
    }
    r
}

/// `s` without leading and trailing whitespace.
pub fn trim_chars(s: &Vec<char>) -> (r: Vec<char>)
    ensures
        r@ == trim_seq(s@),
{
    let n = s.len();
    let mut i: usize = 0;
    assert(s@.subrange(0, n as int) == s@);
    while i < n && is_whitespace(s[i])
        invariant
            i <= n,
            n == s.len(),
            trim_start_seq(s@) == trim_start_seq(s@.subrange(i as int, n as int)),
        decreases n - i,
    {
        assert(s@.subrange(i as int, n as int).drop_first() == s@.subrange(i + 1, n as int));
        i += 1;
    }
    assert(trim_start_seq(s@) == s@.subrange(i as int, n as int));
    let mut j = n;
    while j > i && is_whitespace(s[j - 1])
        invariant
            i <= j <= n,
            n == s.len(),
            trim_seq(s@) == trim_end_seq(s@.subrange(i as int, j as int)),
        decreases j,
    {
        assert(s@.subrange(i as int, j as int).drop_last() == s@.subrange(i as int, j - 1));
        j -= 1;
    }
    assert(trim_end_seq(s@.subrange(i as int, j as int)) == s@.subrange(i as int, j as int));
    copy_range(s, i, j)
}

/// Whether `c` is one of `0`..`9`.
pub open spec fn is_digit(c: char) -> bool {
    '0' <= c <= '9'
}

/// The number written by the decimal digits `s`.
pub open spec fn digits_value(s: Seq<char>) -> nat
    decreases s.len(),
{
    if s.len() == 0 {
        0
    } else {
        digits_value(s.drop_last()) * 10 + ((s.last() as u32) - 48) as nat
    }
}

/// Whether every character of `s` is a decimal digit.
pub open spec fn all_digits(s: Seq<char>) -> bool {
    forall|i: int| 0 <= i < s.len() ==> is_digit(#[trigger] s[i])
}

/// `s` without one leading `+`.
pub open spec fn unsigned_part(s: Seq<char>) -> Seq<char> {
    if s.len() > 0 && s[0] == '+' {
        s.drop_first()
    } else {
        s
    }
}

/// The text `u64::from_str` accepts: an optional `+`, then one or more decimal
/// digits whose value fits in a `u64`.
pub open spec fn parse_u64_seq(s: Seq<char>) -> Option<u64> {
    let digits = unsigned_part(s);
    if digits.len() > 0 && all_digits(digits) && digits_value(digits) <= u64::MAX {
        Some(digits_value(digits) as u64)
    } else {
        None
    }
}

/// A prefix of a digit string never has a larger value.
pub proof fn lemma_digits_value_prefix(s: Seq<char>, k: int)
    requires
        0 <= k <= s.len(),
        forall|i: int| 0 <= i < s.len() ==> is_digit(#[trigger] s[i]),
    ensures
        digits_value(s.take(k)) <= digits_value(s),
    decreases s.len(),
{
    if k < s.len() {
        assert(s.drop_last().take(k) == s.take(k));
        lemma_digits_value_prefix(s.drop_last(), k);
    } else {
        assert(s.take(k) == s);
    }
}

/// Parses `s` as `u64::from_str` does.
pub fn parse_u64(s: &Vec<char>) -> (r: Option<u64>)
    ensures
        r == parse_u64_seq(s@),
{
    let n = s.len();
    let start: usize = if n > 0 && s[0] == '+' {
        1
    } else {
        0
    };
    let ghost digits = unsigned_part(s@);
    assert(digits == s@.subrange(start as int, n as int));
    if start >= n {
        return None;
    }
    let mut value: u64 = 0;
    let mut k = start;
    while k < n
        invariant
            start <= k <= n,
            n == s.len(),
            digits == s@.subrange(start as int, n as int),
            digits == unsigned_part(s@),
            digits.len() > 0,
            forall|i: int| 0 <= i < k - start ==> is_digit(#[trigger] digits[i]),
            value as nat == digits_value(digits.take(k - start)),
        decreases n - k,
    {
        let c = s[k];
        if !('0' <= c && c <= '9') {
            assert(!is_digit(digits[k - start]));
            assert(!all_digits(digits));
            assert(parse_u64_seq(s@) is None);
            return None;
        }
        assert(digits.take(k - start + 1).drop_last() == digits.take(k - start));
        let d = (c as u32 - 48) as u64;
        if value > (u64::MAX - d) / 10 {
            proof {
                assert(digits_value(digits.take(k - start + 1)) > u64::MAX) by (nonlinear_arith)
                    requires
                        value > (u64::MAX - d) / 10,
                        digits_value(digits.take(k - start + 1)) == value * 10 + d,
                ;
                if all_digits(digits) {
                    lemma_digits_value_prefix(digits, k - start + 1);
                }
                assert(parse_u64_seq(s@) is None);
            }
            return None;
        }
        assert(value * 10 + d <= u64::MAX) by (nonlinear_arith)
            requires
                value <= (u64::MAX - d) / 10,
        ;
        value = value * 10 + d;
        k += 1;
    }
    assert(digits.take(n - start) == digits);
    Some(value)
}

/// Whether `pat` occurs in `s` starting at `i`.
pub open spec fn occurs_at(s: Seq<char>, pat: Seq<char>, i: int) -> bool {
    0 <= i && i + pat.len() <= s.len() && s.subrange(i, i + pat.len()) == pat
}

/// Whether `pat` occurs in `s` (`str::contains`).
pub open spec fn contains_text(s: Seq<char>, pat: Seq<char>) -> bool {
    exists|i: int| occurs_at(s, pat, i)
}

/// Whether `pat` occurs in `s` at `i`.
fn matches_at(s: &Vec<char>, pat: &Vec<char>, i: usize) -> (r: bool)
    requires
        i + pat.len() <= s.len(),
    ensures
        r == occurs_at(s@, pat@, i as int),
{
    let mut k: usize = 0;
    while k < pat.len()
        invariant
            k <= pat.len(),
            i + pat.len() <= s.len(),
            forall|j: int| 0 <= j < k ==> s@[i + j] == pat@[j],
        decreases pat@.len() - k,
    {
        if s[i + k] != pat[k] {
            assert(s@.subrange(i as int, i + pat@.len())[k as int] != pat@[k as int]);
            return false;
        }
        k += 1;
    }
    assert(s@.subrange(i as int, i + pat@.len()) =~= pat@);
    true
}

/// Whether `s` starts with `pat` (`str::starts_with`).
pub fn starts_with_chars(s: &Vec<char>, pat: &Vec<char>) -> (r: bool)
    ensures
        r == occurs_at(s@, pat@, 0),
{
    if pat.len() > s.len() {
        return false;
    }
    matches_at(s, pat, 0)
}

/// Whether `pat` occurs in `s`.
pub fn contains_chars(s: &Vec<char>, pat: &Vec<char>) -> (r: bool)
    ensures
        r == contains_text(s@, pat@),
{
    if pat.len() > s.len() {
        assert forall|j: int| !occurs_at(s@, pat@, j) by {}
        return false;
    }
    if pat.len() == 0 {
        assert(s@.subrange(0, 0) =~= pat@);
        assert(occurs_at(s@, pat@, 0));
        return true;
    }
    let last = s.len() - pat.len();
    for i in 0..last + 1
        invariant
            last + pat.len() == s.len(),
            forall|j: int| 0 <= j < i ==> !occurs_at(s@, pat@, j),
    {
        if matches_at(s, pat, i) {
            return true;
        }
    }
    assert forall|j: int| !occurs_at(s@, pat@, j) by {
        if 0 <= j <= last {
        }
    }
    false
}

/// The order of `str`: lexicographic by character (which is the order of
/// their UTF-8 bytes).
pub open spec fn text_lt(a: Seq<char>, b: Seq<char>) -> bool
    decreases a.len(),
{
    if a.len() == 0 {
        b.len() > 0
    } else if b.len() == 0 {
        false
    } else if a[0] != b[0] {
        a[0] < b[0]
    } else {
        text_lt(a.drop_first(), b.drop_first())
    }
}

/// `text_lt` is irreflexive.
pub proof fn lemma_text_lt_irreflexive(a: Seq<char>)
    ensures
        !text_lt(a, a),
    decreases a.len(),
{
    if a.len() > 0 {
        lemma_text_lt_irreflexive(a.drop_first());
    }
}

/// Two texts are equal or one is below the other, but not both ways.
pub proof fn lemma_text_lt_trichotomy(a: Seq<char>, b: Seq<char>)
    ensures
        text_lt(a, b) || a == b || text_lt(b, a),
        !(text_lt(a, b) && text_lt(b, a)),
    decreases a.len(),
{
    if a.len() > 0 && b.len() > 0 {
        if a[0] == b[0] {
            lemma_text_lt_trichotomy(a.drop_first(), b.drop_first());
            if a.drop_first() == b.drop_first() {
                assert(a =~= seq![a[0]] + a.drop_first());
                assert(b =~= seq![b[0]] + b.drop_first());
            }
        }
    } else if a.len() == 0 && b.len() == 0 {
        assert(a =~= b);
    }
}

/// `text_lt` is transitive.
pub proof fn lemma_text_lt_transitive(a: Seq<char>, b: Seq<char>, c: Seq<char>)
    requires
        text_lt(a, b),
        text_lt(b, c),
    ensures
        text_lt(a, c),
    decreases a.len(),
{
    if a.len() > 0 && b.len() > 0 && c.len() > 0 {
        if a[0] == b[0] && b[0] == c[0] {
            lemma_text_lt_transitive(a.drop_first(), b.drop_first(), c.drop_first());
        }
    }
}

/// The outcome of comparing two texts.
#[derive(Clone, Copy, Debug, PartialEq, Eq, Structural)]
pub enum TextOrder {
    Less,
    Equal,
    Greater,
}

/// Compares `a` and `b` in the order of `str`.
pub fn compare_text(a: &Vec<char>, b: &Vec<char>) -> (r: TextOrder)
    ensures
        r == TextOrder::Less <==> text_lt(a@, b@),
        r == TextOrder::Equal <==> a@ == b@,
        r == TextOrder::Greater <==> text_lt(b@, a@),
{
    let mut i: usize = 0;
    assert(a@.skip(0) == a@ && b@.skip(0) == b@);
    while i < a.len() && i < b.len()
        invariant
            i <= a.len(),
            i <= b.len(),
            a@.take(i as int) == b@.take(i as int),
            text_lt(a@, b@) == text_lt(a@.skip(i as int), b@.skip(i as int)),
            text_lt(b@, a@) == text_lt(b@.skip(i as int), a@.skip(i as int)),
        decreases a.len() - i,
    {
        assert(a@.skip(i as int)[0] == a@[i as int]);
        assert(b@.skip(i as int)[0] == b@[i as int]);
        assert(a@.skip(i as int).drop_first() == a@.skip(i + 1));
        assert(b@.skip(i as int).drop_first() == b@.skip(i + 1));
        if a[i] != b[i] {
            proof {
                lemma_text_lt_trichotomy(a@, b@);
                if a@ == b@ {
                    assert(a@[i as int] == b@[i as int]);
                }
            }
            if a[i] < b[i] {
                return TextOrder::Less;
            } else {
                return TextOrder::Greater;
            }
        }
        assert(a@.take(i + 1) =~= a@.take(i as int).push(a@[i as int]));
        assert(b@.take(i + 1) =~= b@.take(i as int).push(b@[i as int]));
        i += 1;
    }
    proof {
        lemma_text_lt_trichotomy(a@, b@);
        if i == a.len() {
            assert(a@.take(i as int) == a@);
        }
        if i == b.len() {
            assert(b@.take(i as int) == b@);
        }
        if i == a.len() && i == b.len() {
            assert(a@ == b@);
        }
    }
    if a.len() == b.len() {
        TextOrder::Equal
    } else if a.len() < b.len() {
        TextOrder::Less
    } else {
        TextOrder::Greater
    }
}

/// The text that `bytes` encode, when they are valid UTF-8, by
/// `std::str::from_utf8`. Trusted: it succeeds exactly on valid UTF-8, and
/// the text is then the characters the bytes encode.
#[verifier::external_body]
pub(crate) fn utf8_decode(bytes: &[u8]) -> (r: Option<String>)
    ensures
        r is Some <==> valid_utf8(bytes@),
        r matches Some(s) ==> s@ == decode_utf8(bytes@),
{
    std::str::from_utf8(bytes).ok().map(str::to_string)
}


/// The length of the run of non-whitespace characters that starts `s`.
pub open spec fn word_len(s: Seq<char>) -> nat
    decreases s.len(),
{
    if s.len() == 0 || spec_is_whitespace(s[0]) {
        0
    } else {
        1 + word_len(s.drop_first())
    }
}

/// A run of non-whitespace characters never reaches past the text.
pub proof fn lemma_word_len_bound(s: Seq<char>)
    ensures
        word_len(s) <= s.len(),
        s.len() > 0 && !spec_is_whitespace(s[0]) ==> word_len(s) >= 1,
    decreases s.len(),
{
    if s.len() > 0 && !spec_is_whitespace(s[0]) {
        lemma_word_len_bound(s.drop_first());
    }
}

/// The whitespace-separated words of `s` (`str::split_whitespace`).
pub open spec fn words(s: Seq<char>) -> Seq<Seq<char>>
    decreases s.len(),
{
    if s.len() == 0 {
        seq![]
    } else if spec_is_whitespace(s[0]) {
        words(s.drop_first())
    } else {
        proof {
            lemma_word_len_bound(s);
        }
        seq![s.take(word_len(s) as int)] + words(s.skip(word_len(s) as int))
    }
}

/// The texts `ws` joined by `sep`.
pub open spec fn join_with(ws: Seq<Seq<char>>, sep: char) -> Seq<char>
    decreases ws.len(),
{
    if ws.len() == 0 {
        seq![]
    } else if ws.len() == 1 {
        ws[0]
    } else {
        join_with(ws.drop_last(), sep) + seq![sep] + ws.last()
    }
}

/// `s` with its runs of whitespace made single spaces and its leading and
/// trailing whitespace removed: its words joined by spaces.
pub open spec fn collapse_whitespace(s: Seq<char>) -> Seq<char> {
    join_with(words(s), ' ')
}

/// One step of a word: a non-whitespace character followed by the rest.
proof fn lemma_word_len_step(s: Seq<char>, i: int)
    requires
        0 <= i < s.len(),
    ensures
        spec_is_whitespace(s[i]) ==> word_len(s.skip(i)) == 0,
        !spec_is_whitespace(s[i]) ==> word_len(s.skip(i)) == 1 + word_len(s.skip(i + 1)),
{
    assert(s.skip(i).drop_first() =~= s.skip(i + 1));
}

/// `s` with its words joined by single spaces.
pub fn collapse_chars(s: &Vec<char>) -> (r: Vec<char>)
    ensures
        r@ == collapse_whitespace(s@),
{
    let n = s.len();
    let mut out: Vec<char> = Vec::new();
    let ghost mut acc: Seq<Seq<char>> = seq![];
    let mut started = false;
    let mut i: usize = 0;
    assert(s@.skip(0) =~= s@);
    while i < n
        invariant
            i <= n,
            n == s.len(),
            acc + words(s@.skip(i as int)) == words(s@),
            out@ == join_with(acc, ' '),
            started == (acc.len() > 0),
        decreases n - i,
    {
        if is_whitespace(s[i]) {
            assert(s@.skip(i as int).drop_first() =~= s@.skip(i + 1));
            i += 1;
        } else {
            let start = i;
            let ghost rest = s@.skip(start as int);
            proof {
                lemma_word_len_step(s@, start as int);
            }
            i += 1;
            while i < n && !is_whitespace(s[i])
                invariant
                    start < i <= n,
                    n == s.len(),
                    rest == s@.skip(start as int),
                    word_len(rest) == (i - start) + word_len(s@.skip(i as int)),
                decreases n - i,
            {
                proof {
                    lemma_word_len_step(s@, i as int);
                }
                i += 1;
            }
            proof {
                if i < n {
                    lemma_word_len_step(s@, i as int);
                }
                assert(word_len(rest) == i - start);
                assert(rest.take(word_len(rest) as int) =~= s@.subrange(start as int, i as int));
                assert(rest.skip(word_len(rest) as int) =~= s@.skip(i as int));
            }
            let ghost before = out@;
            if started {
                out.push(' ');
            }
            let mut k = start;
            while k < i
                invariant
                    start <= k <= i <= n,
                    n == s.len(),
                    out@ == (if acc.len() > 0 { before + seq![' '] } else { before }) + s@.subrange(
                        start as int,
                        k as int,
                    ),
                decreases i - k,
            {
                out.push(s[k]);
                k += 1;
                assert(s@.subrange(start as int, k as int) =~= s@.subrange(start as int, k - 1).push(s@[k - 1]));
            }
            proof {
                let w = s@.subrange(start as int, i as int);
                let acc2 = acc.push(w);
                assert(acc2.drop_last() =~= acc);
                if acc.len() == 0 {
                    assert(join_with(acc2, ' ') == w);
                    assert(out@ =~= w);
                } else {
                    assert(out@ =~= before + seq![' '] + w);
                }
                assert(acc2 + words(s@.skip(i as int)) =~= acc + words(rest));
                acc = acc2;
            }
            started = true;
        }
    }
    assert(s@.skip(n as int) =~= Seq::<char>::empty());
    assert(acc + Seq::<Seq<char>>::empty() =~= acc);
    out
}


/// The position of the first newline in `s`, or its length when there is
/// none.
pub open spec fn newline_pos(s: Seq<char>) -> nat
    decreases s.len(),
{
    if s.len() == 0 || s[0] == '\n' {
        0
    } else {
        1 + newline_pos(s.drop_first())
    }
}

/// A newline position lies within the text.
pub proof fn lemma_newline_pos_bound(s: Seq<char>)
    ensures
        newline_pos(s) <= s.len(),
        newline_pos(s) < s.len() ==> s[newline_pos(s) as int] == '\n',
        forall|j: int| 0 <= j < newline_pos(s) ==> s[j] != '\n',
    decreases s.len(),
{
    if s.len() > 0 && s[0] != '\n' {
        lemma_newline_pos_bound(s.drop_first());
        assert forall|j: int| 0 <= j < newline_pos(s) implies s[j] != '\n' by {
            if j > 0 {
                assert(s[j] == s.drop_first()[j - 1]);
            }
        }
    }
}

/// `l` without one trailing carriage return.
pub open spec fn strip_cr(l: Seq<char>) -> Seq<char> {
    if l.len() > 0 && l.last() == '\r' {
        l.drop_last()
    } else {
        l
    }
}

/// The lines of `s` (`str::lines`): split at each `\n`, a `\r` right before
/// the `\n` dropped, no empty line after a final `\n`.
pub open spec fn lines(s: Seq<char>) -> Seq<Seq<char>>
    decreases s.len(),
{
    if s.len() == 0 {
        seq![]
    } else {
        proof {
            lemma_newline_pos_bound(s);
        }
        let k = newline_pos(s) as int;
        if k == s.len() {
            seq![s]
        } else {
            seq![strip_cr(s.take(k))] + lines(s.skip(k + 1))
        }
    }
}

/// One step of a line: a character other than a newline, then the rest.
proof fn lemma_newline_pos_step(s: Seq<char>, i: int)
    requires
        0 <= i < s.len(),
    ensures
        s[i] == '\n' ==> newline_pos(s.skip(i)) == 0,
        s[i] != '\n' ==> newline_pos(s.skip(i)) == 1 + newline_pos(s.skip(i + 1)),
{
    assert(s.skip(i).drop_first() =~= s.skip(i + 1));
}

/// The first `n` items of `s`, or all of them when there are fewer.
pub open spec fn at_most<T>(s: Seq<T>, n: nat) -> Seq<T> {
    if s.len() > n {
        s.take(n as int)
    } else {
        s
    }
}

/// The first `max` lines of `s` joined by newlines, and whether `s` has
/// more lines than that.
pub fn first_lines(s: &Vec<char>, max: usize) -> (r: (Vec<char>, bool))
    ensures
        r.0@ == join_with(at_most(lines(s@), max as nat), '\n'),
        r.1 == (lines(s@).len() > max),
{
    let n = s.len();
    let mut out: Vec<char> = Vec::new();
    let ghost mut acc: Seq<Seq<char>> = seq![];
    let mut count: usize = 0;
    let mut i: usize = 0;
    assert(s@.skip(0) =~= s@);
    while i < n && count < max
        invariant
            i <= n,
            n == s.len(),
            count <= max,
            acc.len() == count,
            acc + lines(s@.skip(i as int)) == lines(s@),
            out@ == join_with(acc, '\n'),
        decreases n - i,
    {
        let start = i;
        let ghost rest = s@.skip(start as int);
        while i < n && s[i] != '\n'
            invariant
                start <= i <= n,
                n == s.len(),
                rest == s@.skip(start as int),
                newline_pos(rest) == (i - start) + newline_pos(s@.skip(i as int)),
            decreases n - i,
        {
            proof {
                lemma_newline_pos_step(s@, i as int);
            }
            i += 1;
        }
        let mut end = i;
        proof {
            if i < n {
                lemma_newline_pos_step(s@, i as int);
            } else {
                assert(s@.skip(n as int).len() == 0);
            }
            assert(newline_pos(rest) == i - start);
            assert(rest.take(newline_pos(rest) as int) =~= s@.subrange(start as int, i as int));
        }
        if i < n && end > start && s[end - 1] == '\r' {
            end = end - 1;
        }
        let ghost line = s@.subrange(start as int, end as int);
        proof {
            if i < n {
                assert(line =~= strip_cr(s@.subrange(start as int, i as int)));
                assert(rest.skip(newline_pos(rest) as int + 1) =~= s@.skip(i + 1));
                assert(lines(rest) == seq![line] + lines(s@.skip(i + 1)));
            } else {
                assert(line =~= rest);
                assert(lines(rest) == seq![line]);
            }
        }
        let ghost before = out@;
        if count > 0 {
            out.push('\n');
        }
        let mut k = start;
        while k < end
            invariant
                start <= k <= end <= n,
                n == s.len(),
                out@ == (if count > 0 { before + seq!['\n'] } else { before }) + s@.subrange(
                    start as int,
                    k as int,
                ),
            decreases end - k,
        {
            out.push(s[k]);
            k += 1;
            assert(s@.subrange(start as int, k as int) =~= s@.subrange(start as int, k - 1).push(s@[k - 1]));
        }
        proof {
            let acc2 = acc.push(line);
            assert(acc2.drop_last() =~= acc);
            if count == 0 {
                assert(out@ =~= line);
            } else {
                assert(out@ =~= before + seq!['\n'] + line);
            }
            if i < n {
                assert(acc2 + lines(s@.skip(i + 1)) =~= acc + lines(rest));
            } else {
                assert(s@.skip(n as int) =~= Seq::<char>::empty());
                assert(acc2 + lines(s@.skip(n as int)) =~= acc + lines(rest));
            }
            acc = acc2;
        }
        count += 1;
        if i < n {
            i += 1;
        }
    }
    proof {
        if i == n {
            assert(s@.skip(n as int) =~= Seq::<char>::empty());
            assert(acc + Seq::<Seq<char>>::empty() =~= acc);
            assert(at_most(lines(s@), max as nat) =~= acc);
        } else {
            assert(lines(s@.skip(i as int)).len() > 0);
            assert(at_most(lines(s@), max as nat) =~= acc);
        }
    }
    (out, i < n)
}


/// The pieces of `s` between its newlines (`str::split('\n')`): one more
/// than there are newlines, empty pieces included.
pub open spec fn pieces(s: Seq<char>) -> Seq<Seq<char>>
    decreases s.len(),
{
    proof {
        lemma_newline_pos_bound(s);
    }
    let k = newline_pos(s) as int;
    if k == s.len() {
        seq![s]
    } else {
        seq![s.take(k)] + pieces(s.skip(k + 1))
    }
}

/// Whether `l` holds no newline.
pub open spec fn no_newline(l: Seq<char>) -> bool {
    forall|j: int| 0 <= j < l.len() ==> #[trigger] l[j] != '\n'
}

/// The newline that ends the first piece of a text made of a newline-free
/// line, a newline and more.
proof fn lemma_newline_pos_after(a: Seq<char>, rest: Seq<char>)
    requires
        no_newline(a),
    ensures
        newline_pos(a + rest) == a.len() + if rest.len() > 0 && rest[0] == '\n' {
            0
        } else {
            newline_pos(rest)
        },
        no_newline(a) && newline_pos(a) == a.len(),
    decreases a.len(),
{
    if a.len() > 0 {
        assert((a + rest)[0] == a[0]);
        assert((a + rest).drop_first() =~= a.drop_first() + rest);
        lemma_newline_pos_after(a.drop_first(), rest);
        assert(a.drop_first() + Seq::<char>::empty() =~= a.drop_first());
    } else {
        assert(a + rest =~= rest);
    }
}

/// A text has at least one piece, and no piece holds a newline.
pub proof fn lemma_pieces_no_newline(s: Seq<char>)
    ensures
        pieces(s).len() >= 1,
        forall|i: int| 0 <= i < pieces(s).len() ==> no_newline(#[trigger] pieces(s)[i]),
    decreases s.len(),
{
    lemma_newline_pos_bound(s);
    let k = newline_pos(s) as int;
    if k < s.len() {
        lemma_pieces_no_newline(s.skip(k + 1));
        assert forall|i: int| 0 <= i < pieces(s).len() implies no_newline(#[trigger] pieces(s)[i]) by {
            if i > 0 {
                assert(pieces(s)[i] == pieces(s.skip(k + 1))[i - 1]);
            }
        }
    }
}

/// Joining a line in front of lines puts a separator between them.
pub proof fn lemma_join_front(a: Seq<char>, ws: Seq<Seq<char>>, sep: char)
    requires
        ws.len() >= 1,
    ensures
        join_with(seq![a] + ws, sep) == a + seq![sep] + join_with(ws, sep),
    decreases ws.len(),
{
    if ws.len() == 1 {
        assert((seq![a] + ws).drop_last() =~= seq![a]);
        assert(join_with(seq![a], sep) == a);
    } else {
        lemma_join_front(a, ws.drop_last(), sep);
        assert((seq![a] + ws).drop_last() =~= seq![a] + ws.drop_last());
        assert(a + seq![sep] + join_with(ws.drop_last(), sep) + seq![sep] + ws.last() =~= a + seq![sep]
            + (join_with(ws.drop_last(), sep) + seq![sep] + ws.last()));
    }
}

/// Joining the pieces of a text with newlines gives the text back.
pub proof fn lemma_join_pieces(s: Seq<char>)
    ensures
        join_with(pieces(s), '\n') == s,
    decreases s.len(),
{
    lemma_newline_pos_bound(s);
    let k = newline_pos(s) as int;
    if k < s.len() {
        let rest = s.skip(k + 1);
        lemma_join_pieces(rest);
        lemma_pieces_no_newline(rest);
        lemma_join_front(s.take(k), pieces(rest), '\n');
        assert(s =~= s.take(k) + seq!['\n'] + rest);
    }
}

/// Splitting newline-free lines joined with newlines gives the lines back.
pub proof fn lemma_pieces_join(ls: Seq<Seq<char>>)
    requires
        ls.len() >= 1,
        forall|i: int| 0 <= i < ls.len() ==> no_newline(#[trigger] ls[i]),
    ensures
        pieces(join_with(ls, '\n')) == ls,
    decreases ls.len(),
{
    let a = ls[0];
    assert(no_newline(ls[0]));
    if ls.len() == 1 {
        lemma_newline_pos_after(a, Seq::empty());
        assert(a + Seq::<char>::empty() =~= a);
        assert(pieces(a) =~= seq![a]);
    } else {
        let ws = ls.drop_first();
        assert forall|i: int| 0 <= i < ws.len() implies no_newline(#[trigger] ws[i]) by {
            assert(ws[i] == ls[i + 1]);
        }
        lemma_pieces_join(ws);
        assert(ls =~= seq![a] + ws);
        lemma_join_front(a, ws, '\n');
        let rest = seq!['\n'] + join_with(ws, '\n');
        let t = a + rest;
        assert(t =~= a + seq!['\n'] + join_with(ws, '\n'));
        lemma_newline_pos_after(a, rest);
        assert(newline_pos(t) == a.len());
        assert(t.take(a.len() as int) =~= a);
        assert(t.skip(a.len() as int + 1) =~= join_with(ws, '\n'));
        assert(pieces(t) =~= seq![a] + ws);
    }
}

/// The character views of a list of character vectors.
pub open spec fn char_views(v: Seq<Vec<char>>) -> Seq<Seq<char>> {
    v.map_values(|l: Vec<char>| l@)
}

/// The pieces of `s` between its newlines.
pub fn split_newlines(s: &Vec<char>) -> (r: Vec<Vec<char>>)
    ensures
        char_views(r@) == pieces(s@),
{
    let n = s.len();
    let mut out: Vec<Vec<char>> = Vec::new();
    let mut i: usize = 0;
    assert(s@.skip(0) =~= s@);
    loop
        invariant
            i <= n,
            n == s.len(),
            char_views(out@) + pieces(s@.skip(i as int)) == pieces(s@),
        decreases n - i,
    {
        let start = i;
        let ghost rest = s@.skip(start as int);
        while i < n && s[i] != '\n'
            invariant
                start <= i <= n,
                n == s.len(),
                rest == s@.skip(start as int),
                newline_pos(rest) == (i - start) + newline_pos(s@.skip(i as int)),
            decreases n - i,
        {
            proof {
                lemma_newline_pos_step(s@, i as int);
            }
            i += 1;
        }
        proof {
            if i < n {
                lemma_newline_pos_step(s@, i as int);
            } else {
                assert(s@.skip(n as int).len() == 0);
            }
        }
        let piece = copy_range(s, start, i);
        let ghost before = out@;
        out.push(piece);
        assert(char_views(out@) =~= char_views(before).push(piece@));
        if i == n {
            assert(rest.take(newline_pos(rest) as int) =~= rest);
            assert(pieces(rest) == seq![rest]);
            assert(char_views(out@) =~= char_views(before) + pieces(rest));
            return out;
        }
        proof {
            assert(rest.take(newline_pos(rest) as int) =~= piece@);
            assert(rest.skip(newline_pos(rest) as int + 1) =~= s@.skip(i + 1));
            assert(pieces(rest) == seq![piece@] + pieces(s@.skip(i + 1)));
            assert(char_views(out@) + pieces(s@.skip(i + 1)) =~= char_views(before) + pieces(rest));
        }
        i += 1;
    }
}

/// How many newlines `s` holds.
pub open spec fn count_newlines(s: Seq<char>) -> nat
    decreases s.len(),
{
    if s.len() == 0 {
        0
    } else {
        count_newlines(s.drop_last()) + if s.last() == '\n' {
            1nat
        } else {
            0nat
        }
    }
}

/// How many newlines come before character offset `off` of `s` (all of
/// them when the offset lies past the end).
pub open spec fn newlines_before(s: Seq<char>, off: nat) -> nat {
    if off < s.len() {
        count_newlines(s.take(off as int))
    } else {
        count_newlines(s)
    }
}

/// How many newlines come before character offset `off` of `s`.
pub fn count_newlines_before(s: &Vec<char>, off: usize) -> (r: usize)
    ensures
        r == newlines_before(s@, off as nat),
{
    let end = if off < s.len() {
        off
    } else {
        s.len()
    };
    let mut count: usize = 0;
    for i in 0..end
        invariant
            end <= s.len(),
            count == count_newlines(s@.take(i as int)),
            count <= i,
    {
        assert(s@.take(i + 1).drop_last() =~= s@.take(i as int));
        if s[i] == '\n' {
            count += 1;
        }
    }
    assert(s@.take(s@.len() as int) =~= s@);
    count
}

/// The texts `lines` joined by `sep`.
pub fn join_lines(lines: &Vec<Vec<char>>, sep: char) -> (r: Vec<char>)
    ensures
        r@ == join_with(char_views(lines@), sep),
{
    let mut out: Vec<char> = Vec::new();
    for i in 0..lines.len()
        invariant
            out@ == join_with(char_views(lines@.take(i as int)), sep),
    {
        let ghost before = out@;
        let ghost acc = char_views(lines@.take(i as int));
        let ghost acc2 = char_views(lines@.take(i + 1));
        assert(acc2 =~= acc.push(lines@[i as int]@));
        assert(acc2.drop_last() =~= acc);
        if i > 0 {
            out.push(sep);
        }
        let line = &lines[i];
        for k in 0..line.len()
            invariant
                out@ == (if i > 0 { before + seq![sep] } else { before }) + line@.take(k as int),
        {
            out.push(line[k]);
            assert(line@.take(k + 1) =~= line@.take(k as int).push(line@[k as int]));
        }
        assert(line@.take(line@.len() as int) =~= line@);
        if i == 0 {
            assert(out@ =~= acc2[0]);
        } else {
            assert(out@ =~= before + seq![sep] + acc2.last());
        }
    }
    assert(lines@.take(lines@.len() as int) =~= lines@);
    out
}


/// The position of the first `c` in `s`, or its length when there is none.
pub open spec fn first_pos(s: Seq<char>, c: char) -> nat
    decreases s.len(),
{
    if s.len() == 0 || s[0] == c {
        0
    } else {
        1 + first_pos(s.drop_first(), c)
    }
}

} // verus!
