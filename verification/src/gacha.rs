//! Text helpers of the warp history view.

use vstd::prelude::*;

use crate::text::{
    copy_range, decimal, first_pos, parse_u64, parse_u64_seq, push_decimal, string_from_chars, to_chars,
};

verus! {

/// Decimal digits grouped by threes from the right, with commas between
/// the groups.
pub open spec fn group3(d: Seq<char>) -> Seq<char>
    decreases d.len(),
{
    if d.len() <= 3 {
        d
    } else {
        group3(d.take(d.len() - 3)) + seq![','] + d.skip(d.len() - 3)
    }
}

/// The characters `d[..end]` grouped by threes from the right.
fn group_digits(d: &Vec<char>, end: usize) -> (r: Vec<char>)
    requires
        end <= d@.len(),
    ensures
        r@ == group3(d@.take(end as int)),
    decreases end,
{
    if end <= 3 {
        let r = copy_range(d, 0, end);
        assert(r@ =~= d@.take(end as int));
        return r;
    }
    let mut r = group_digits(d, end - 3);
    r.push(',');
    let tail = copy_range(d, end - 3, end);
    let ghost head = r@;
    for i in 0..3
        invariant
            r@ == head + tail@.take(i as int),
            tail@.len() == 3,
    {
        r.push(tail[i]);
        assert(tail@.take(i + 1) =~= tail@.take(i as int).push(tail@[i as int]));
    }
    proof {
        let t = d@.take(end as int);
        assert(t.take(t.len() - 3) =~= d@.take(end - 3));
        assert(t.skip(t.len() - 3) =~= tail@);
        assert(tail@.take(3) =~= tail@);
    }
    r
}

/// Grouping digits keeps them all, in order, and puts a comma after every
/// third one counted from the right (none at the very end): counted from the
/// right, every fourth character is a comma and the others are the digits.
pub proof fn lemma_group3_layout(d: Seq<char>)
    requires
        d.len() > 0,
    ensures
        group3(d).len() == d.len() + (d.len() - 1) / 3,
        forall|k: int|
            0 <= k < group3(d).len() ==> #[trigger] group3(d)[group3(d).len() - 1 - k] == if k % 4 == 3 {
                ','
            } else {
                d[d.len() - 1 - (k - k / 4)]
            },
    decreases d.len(),
{
    let m = d.len() as int;
    let g = group3(d);
    if m > 3 {
        let head = d.take(m - 3);
        let tail = d.skip(m - 3);
        lemma_group3_layout(head);
        let h = group3(head);
        assert(g == h + seq![','] + tail);
        assert forall|k: int| 0 <= k < g.len() implies #[trigger] g[g.len() - 1 - k] == if k % 4 == 3 {
            ','
        } else {
            d[m - 1 - (k - k / 4)]
        } by {
            if k < 3 {
                assert(g[g.len() - 1 - k] == tail[2 - k]);
            } else if k == 3 {
                assert(g[g.len() - 1 - k] == ',');
            } else {
                let k2 = k - 4;
                assert(k2 % 4 == k % 4 && k2 / 4 == k / 4 - 1) by (nonlinear_arith)
                    requires k2 == k - 4, k >= 4;
                assert(g[g.len() - 1 - k] == h[h.len() - 1 - k2]);
                if k % 4 != 3 {
                    assert(k2 - k2 / 4 >= 0 && k2 - k2 / 4 <= k2) by (nonlinear_arith)
                        requires k2 >= 0;
                    assert(head[head.len() - 1 - (k2 - k2 / 4)] == d[m - 1 - (k - k / 4)]);
                }
            }
        }
    } else {
        assert forall|k: int| 0 <= k < g.len() implies #[trigger] g[g.len() - 1 - k] == if k % 4 == 3 {
            ','
        } else {
            d[m - 1 - (k - k / 4)]
        } by {
            assert(k % 4 == k && k / 4 == 0);
        }
    }
}

/// `n` in decimal with a comma between each group of three digits.
pub fn thousands(n: usize) -> (s: String)
    ensures
        s@ == group3(decimal(n as nat)),
{
    let mut d: Vec<char> = Vec::new();
    push_decimal(&mut d, n as u64);
    assert(d@ =~= decimal(n as nat));
    let r = group_digits(&d, d.len());
    assert(d@.take(d@.len() as int) =~= d@);
    string_from_chars(&r)
}

/// The date of a `date time` text: what comes before its first space.
pub fn date_only(s: &str) -> (r: String)
    ensures
        r@ == s@.take(first_pos(s@, ' ') as int),
{
    let c = to_chars(s);
    let n = c.len();
    let mut i: usize = 0;
    assert(c@.skip(0) =~= c@);
    while i < n && c[i] != ' '
        invariant
            i <= n,
            n == c@.len(),
            first_pos(c@, ' ') == i + first_pos(c@.skip(i as int), ' '),
        decreases n - i,
    {
        assert(c@.skip(i as int).drop_first() =~= c@.skip(i + 1));
        i += 1;
    }
    proof {
        if i == n {
            assert(c@.skip(i as int).len() == 0);
        }
    }
    string_from_chars(&copy_range(&c, 0, i))
}

/// The first character of a name, as a text; `?` for an empty name.
pub fn first_char(name: &str) -> (r: String)
    ensures
        r@ == if name@.len() > 0 {
            seq![name@[0]]
        } else {
            seq!['?']
        },
{
    let c = to_chars(name);
    let mut out: Vec<char> = Vec::new();
    if c.len() > 0 {
        out.push(c[0]);
    } else {
        out.push('?');
    }
    string_from_chars(&out)
}

/// The status line after a warp history was read: `Done — `, the number of
/// pulls, ` pulls, `, the number of five-star pulls and ` × 5★.`.
pub open spec fn done_status(total_pulls: nat, total_five: nat) -> Seq<char> {
    seq!['D', 'o', 'n', 'e', ' ', '—', ' '] + decimal(total_pulls) + seq![' ', 'p', 'u', 'l', 'l', 's', ',', ' ']
        + decimal(total_five) + seq![' ', '×', ' ', '5', '★', '.']
}

/// Appends the characters of `tail` to `out`.
fn push_all(out: &mut Vec<char>, tail: &Vec<char>)
    ensures
        final(out)@ == old(out)@ + tail@,
{
    for i in 0..tail.len()
        invariant
            out@ == old(out)@ + tail@.take(i as int),
    {
        out.push(tail[i]);
        assert(tail@.take(i + 1) =~= tail@.take(i as int).push(tail@[i as int]));
    }
    assert(tail@.take(tail@.len() as int) =~= tail@);
}

/// The status line after a warp history was read (see `done_status`).
pub fn fetch_done_status(total_pulls: usize, total_five: usize) -> (s: String)
    ensures
        s@ == done_status(total_pulls as nat, total_five as nat),
{
    let mut out: Vec<char> = Vec::new();
    let head = to_chars("Done — ");
    let mid = to_chars(" pulls, ");
    let tail = to_chars(" × 5★.");
    proof {
        reveal_strlit("Done — ");
        reveal_strlit(" pulls, ");
        reveal_strlit(" × 5★.");
    }
    push_all(&mut out, &head);
    push_decimal(&mut out, total_pulls as u64);
    push_all(&mut out, &mid);
    push_decimal(&mut out, total_five as u64);
    push_all(&mut out, &tail);
    assert(out@ =~= done_status(total_pulls as nat, total_five as nat));
    string_from_chars(&out)
}

/// The item ids of the pulls whose icons are fetched: each id that reads as
/// a `u32` (as `u32::from_str` reads it), in order; the others are left out.
pub open spec fn icon_ids_of(ids: Seq<String>) -> Seq<u32>
    decreases ids.len(),
{
    if ids.len() == 0 {
        Seq::empty()
    } else {
        icon_ids_of(ids.drop_last()) + match parse_u64_seq(ids.last()@) {
            Some(v) => if v <= u32::MAX {
                seq![v as u32]
            } else {
                Seq::empty()
            },
            None => Seq::empty(),
        }
    }
}

/// The icon ids of the pulls with item ids `item_ids` (see `icon_ids_of`).
pub fn icon_ids(item_ids: &Vec<String>) -> (r: Vec<u32>)
    ensures
        r@ == icon_ids_of(item_ids@),
{
    let mut out: Vec<u32> = Vec::new();
    for i in 0..item_ids.len()
        invariant
            out@ == icon_ids_of(item_ids@.take(i as int)),
    {
        assert(item_ids@.take(i + 1).drop_last() =~= item_ids@.take(i as int));
        match parse_u64(&to_chars(item_ids[i].as_str())) {
            Some(v) => {
                if v <= u32::MAX as u64 {
                    out.push(v as u32);
                }
            },
            None => {},
        }
        assert(out@ =~= icon_ids_of(item_ids@.take(i + 1)));
    }
    assert(item_ids@.take(item_ids@.len() as int) =~= item_ids@);
    out
}

} // verus!
