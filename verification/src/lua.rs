//! The Lua editor's line-comment toggle.

use vstd::prelude::*;

use crate::text::{
    lemma_join_pieces, lemma_pieces_join, lemma_pieces_no_newline, no_newline,
    char_views, copy_range, count_newlines_before, is_whitespace, join_lines, join_with,
    newlines_before, occurs_at, pieces, spec_is_whitespace, split_newlines, string_from_chars,
    to_chars, trim_start_seq, count_newlines, lemma_newline_pos_bound, newline_pos,
};

verus! {

/// Whether line `l` holds only whitespace.
pub open spec fn is_blank(l: Seq<char>) -> bool {
    trim_start_seq(l).len() == 0
}

/// The whitespace that starts line `l`.
pub open spec fn indent_of(l: Seq<char>) -> Seq<char> {
    l.take(l.len() - trim_start_seq(l).len())
}

/// Whether line `l` is a comment: after its indentation it starts with `--`.
pub open spec fn is_commented(l: Seq<char>) -> bool {
    occurs_at(trim_start_seq(l), seq!['-', '-'], 0)
}

/// `rest` without its leading `-- `, or else without its leading `--`.
pub open spec fn uncommented(rest: Seq<char>) -> Seq<char> {
    if occurs_at(rest, seq!['-', '-', ' '], 0) {
        rest.skip(3)
    } else if occurs_at(rest, seq!['-', '-'], 0) {
        rest.skip(2)
    } else {
        rest
    }
}

/// Line `l` commented out (`comment`) or uncommented; a blank line stays as
/// it is.
pub open spec fn toggled_line(l: Seq<char>, comment: bool) -> Seq<char> {
    if is_blank(l) {
        l
    } else if comment {
        indent_of(l) + seq!['-', '-', ' '] + trim_start_seq(l)
    } else {
        indent_of(l) + uncommented(trim_start_seq(l))
    }
}

/// The first selected line: the line of the selection's start (a character
/// offset).
pub open spec fn first_selected(text: Seq<char>, sel_start: nat) -> int {
    let n = pieces(text).len() as int;
    let l = newlines_before(text, sel_start) as int;
    if l < n - 1 {
        l
    } else {
        n - 1
    }
}

/// The last selected line: the line of the selection's last character (of
/// its start when it is empty), not before the first selected line.
pub open spec fn last_selected(text: Seq<char>, sel_start: nat, sel_end: nat) -> int {
    let n = pieces(text).len() as int;
    let first = first_selected(text, sel_start);
    let off = if sel_end > sel_start {
        (sel_end - 1) as nat
    } else {
        sel_end
    };
    let l = newlines_before(text, off) as int;
    if l < first {
        first
    } else if l > n - 1 {
        n - 1
    } else {
        l
    }
}

/// Whether one of the lines `first..=last` of `ls` is neither blank nor a
/// comment.
pub open spec fn any_uncommented(ls: Seq<Seq<char>>, first: int, last: int) -> bool {
    exists|i: int| first <= i <= last && !is_blank(#[trigger] ls[i]) && !is_commented(ls[i])
}

/// The lines `ls` with lines `first..=last` commented out when one of them is
/// not a comment yet, else uncommented.
pub open spec fn toggle_lines(ls: Seq<Seq<char>>, first: int, last: int) -> Seq<Seq<char>> {
    let comment = any_uncommented(ls, first, last);
    Seq::new(
        ls.len(),
        |i: int|
            if first <= i <= last {
                toggled_line(ls[i], comment)
            } else {
                ls[i]
            },
    )
}

/// `text` with the selected lines commented out when one of them is not a
/// comment yet, else uncommented.
pub open spec fn toggled_text(text: Seq<char>, sel_start: nat, sel_end: nat) -> Seq<char> {
    let ls = pieces(text);
    join_with(toggle_lines(ls, first_selected(text, sel_start), last_selected(text, sel_start, sel_end)), '\n')
}

/// A whitespace prefix makes no difference to what trimming leaves.
proof fn lemma_trim_after_whitespace(w: Seq<char>, r: Seq<char>)
    requires
        forall|i: int| 0 <= i < w.len() ==> spec_is_whitespace(#[trigger] w[i]),
    ensures
        trim_start_seq(w + r) == trim_start_seq(r),
    decreases w.len(),
{
    if w.len() > 0 {
        assert((w + r)[0] == w[0]);
        assert((w + r).drop_first() =~= w.drop_first() + r);
        lemma_trim_after_whitespace(w.drop_first(), r);
    } else {
        assert(w + r =~= r);
    }
}

/// A line is its indentation, which is whitespace, followed by the rest,
/// which does not start with whitespace.
proof fn lemma_indent_split(l: Seq<char>)
    ensures
        trim_start_seq(l).len() <= l.len(),
        l =~= indent_of(l) + trim_start_seq(l),
        forall|i: int| 0 <= i < indent_of(l).len() ==> spec_is_whitespace(#[trigger] indent_of(l)[i]),
        trim_start_seq(l).len() > 0 ==> !spec_is_whitespace(trim_start_seq(l)[0]),
    decreases l.len(),
{
    if l.len() > 0 && spec_is_whitespace(l[0]) {
        let d = l.drop_first();
        lemma_indent_split(d);
        assert(l =~= seq![l[0]] + d);
        assert(trim_start_seq(l) == trim_start_seq(d));
        assert(indent_of(l) =~= seq![l[0]] + indent_of(d));
        assert forall|i: int| 0 <= i < indent_of(l).len() implies spec_is_whitespace(
            #[trigger] indent_of(l)[i],
        ) by {
            if i > 0 {
                assert(indent_of(l)[i] == indent_of(d)[i - 1]);
            }
        }
    } else {
        assert(indent_of(l) =~= Seq::<char>::empty());
    }
}

/// Commenting a line out and then uncommenting it gives the line back; a
/// line that is not blank is a comment once commented out.
pub proof fn lemma_comment_then_uncomment(l: Seq<char>)
    ensures
        toggled_line(toggled_line(l, true), false) == l,
        !is_blank(l) ==> is_commented(toggled_line(l, true)),
        is_blank(l) ==> toggled_line(l, true) == l,
{
    if !is_blank(l) {
        lemma_indent_split(l);
        let w = indent_of(l);
        let t = trim_start_seq(l);
        let tail = seq!['-', '-', ' '] + t;
        let c = toggled_line(l, true);
        assert(c =~= w + tail);
        lemma_trim_after_whitespace(w, tail);
        assert(!spec_is_whitespace(tail[0]));
        assert(trim_start_seq(tail) == tail);
        assert(trim_start_seq(c) == tail);
        assert(!is_blank(c));
        assert(indent_of(c) =~= w);
        assert(tail.subrange(0, 3) =~= seq!['-', '-', ' ']);
        assert(tail.subrange(0, 2) =~= seq!['-', '-']);
        assert(uncommented(tail) =~= t);
        assert(toggled_line(c, false) =~= w + t);
    }
}

/// Toggling the comments of the same lines twice gives them back when the
/// first toggle comments them out (when one of them was not a comment yet).
pub proof fn lemma_toggle_twice_restores(ls: Seq<Seq<char>>, first: int, last: int)
    requires
        0 <= first,
        last < ls.len(),
        any_uncommented(ls, first, last),
    ensures
        toggle_lines(toggle_lines(ls, first, last), first, last) == ls,
{
    let once = toggle_lines(ls, first, last);
    assert forall|i: int| first <= i <= last && 0 <= i < ls.len() implies #[trigger] once[i] == toggled_line(
        ls[i],
        true,
    ) && (is_blank(once[i]) || is_commented(once[i])) by {
        lemma_comment_then_uncomment(ls[i]);
    }
    assert(!any_uncommented(once, first, last)) by {
        if any_uncommented(once, first, last) {
            let i = choose|i: int| first <= i <= last && !is_blank(#[trigger] once[i]) && !is_commented(once[i]);
            assert(is_blank(once[i]) || is_commented(once[i]));
        }
    }
    let twice = toggle_lines(once, first, last);
    assert forall|i: int| 0 <= i < ls.len() implies #[trigger] twice[i] == ls[i] by {
        if first <= i <= last {
            lemma_comment_then_uncomment(ls[i]);
        }
    }
    assert(twice =~= ls);
}

/// The number of whitespace characters that start `l`.
fn indent_len(l: &Vec<char>) -> (r: usize)
    ensures
        r <= l@.len(),
        trim_start_seq(l@) == l@.skip(r as int),
{
    let n = l.len();
    let mut i: usize = 0;
    assert(l@.skip(0) =~= l@);
    while i < n && is_whitespace(l[i])
        invariant
            i <= n,
            n == l.len(),
            trim_start_seq(l@) == trim_start_seq(l@.skip(i as int)),
        decreases n - i,
    {
        assert(l@.skip(i as int).drop_first() =~= l@.skip(i + 1));
        i += 1;
    }
    i
}

/// Whether `s` starts with `-` `-`, and with `-` `-` ` `.
fn dashes(s: &Vec<char>, from: usize) -> (r: (bool, bool))
    requires
        from <= s@.len(),
    ensures
        r.0 == occurs_at(s@.skip(from as int), seq!['-', '-'], 0),
        r.1 == occurs_at(s@.skip(from as int), seq!['-', '-', ' '], 0),
{
    let n = s.len();
    let two = n - from >= 2 && s[from] == '-' && s[from + 1] == '-';
    let three = two && n - from >= 3 && s[from + 2] == ' ';
    proof {
        let rest = s@.skip(from as int);
        if two {
            assert(rest.subrange(0, 2) =~= seq!['-', '-']);
        } else if rest.len() >= 2 {
            assert(rest.subrange(0, 2)[0] == rest[0]);
            assert(rest.subrange(0, 2)[1] == rest[1]);
        }
        if three {
            assert(rest.subrange(0, 3) =~= seq!['-', '-', ' ']);
        } else if rest.len() >= 3 {
            assert(rest.subrange(0, 3)[0] == rest[0]);
            assert(rest.subrange(0, 3)[1] == rest[1]);
            assert(rest.subrange(0, 3)[2] == rest[2]);
        }
    }
    (two, three)
}

/// Line `l` commented out or uncommented.
fn toggle_line(l: &Vec<char>, comment: bool) -> (r: Vec<char>)
    ensures
        r@ == toggled_line(l@, comment),
{
    let k = indent_len(l);
    let n = l.len();
    if k == n {
        return copy_range(l, 0, n);
    }
    let mut out = copy_range(l, 0, k);
    assert(indent_of(l@) =~= out@);
    let (two, three) = dashes(l, k);
    let from = if comment {
        out.push('-');
        out.push('-');
        out.push(' ');
        k
    } else if three {
        k + 3
    } else if two {
        k + 2
    } else {
        k
    };
    let ghost head = out@;
    for i in from..n
        invariant
            from <= n == l@.len(),
            out@ == head + l@.subrange(from as int, i as int),
    {
        out.push(l[i]);
        assert(l@.subrange(from as int, i + 1) =~= l@.subrange(from as int, i as int).push(l@[i as int]));
    }
    proof {
        assert(l@.subrange(from as int, n as int) =~= l@.skip(from as int));
        let rest = l@.skip(k as int);
        if !comment && three {
            assert(rest.skip(3) =~= l@.skip(from as int));
        } else if !comment && two {
            assert(rest.skip(2) =~= l@.skip(from as int));
        }
    }
    out
}

/// `text` with the comment marks of the selected lines toggled (a Lua line
/// comment `-- ` added after each selected line's indentation when one of
/// them is not a comment yet, else removed), and the first selected line.
/// The selection runs from character offset `sel_start` to `sel_end`.
pub fn toggle_lua_comment(text: &str, sel_start: usize, sel_end: usize) -> (r: Option<(String, u32)>)
    ensures
        match r {
            Some(res) => res.0@ == toggled_text(text@, sel_start as nat, sel_end as nat) && res.1
                == first_selected(text@, sel_start as nat) as u32,
            None => false,
        },
{
    let chars = to_chars(text);
    let lines = split_newlines(&chars);
    let ghost ls = pieces(text@);
    assert(char_views(lines@).len() == lines@.len());
    let n = lines.len();
    assert(ls.len() >= 1) by {
        reveal_with_fuel(pieces, 1);
    }
    let l0 = count_newlines_before(&chars, sel_start);
    let first = if l0 < n - 1 {
        l0
    } else {
        n - 1
    };
    let last_off = if sel_end > sel_start {
        sel_end - 1
    } else {
        sel_end
    };
    let l1 = count_newlines_before(&chars, last_off);
    let last = if l1 < first {
        first
    } else if l1 > n - 1 {
        n - 1
    } else {
        l1
    };
    let mut any = false;
    let mut i = first;
    while i <= last && !any
        invariant
            first <= i,
            last < n,
            n == lines@.len(),
            char_views(lines@) == ls,
            any ==> any_uncommented(ls, first as int, last as int),
            !any ==> forall|j: int| first <= j < i ==> !(!is_blank(#[trigger] ls[j]) && !is_commented(ls[j])),
        decreases last + 1 - i,
    {
        let line = &lines[i];
        let k = indent_len(line);
        let (two, _) = dashes(line, k);
        assert(ls[i as int] == line@);
        if k < line.len() && !two {
            any = true;
        }
        i += 1;
    }
    let mut out: Vec<Vec<char>> = Vec::new();
    for j in 0..n
        invariant
            n == lines@.len(),
            char_views(lines@) == ls,
            first <= last < n,
            any == any_uncommented(ls, first as int, last as int),
            out@.len() == j,
            forall|m: int| 0 <= m < j ==> (#[trigger] out@[m])@ == if first <= m <= last {
                toggled_line(ls[m], any)
            } else {
                ls[m]
            },
    {
        assert(ls[j as int] == lines@[j as int]@);
        if first <= j && j <= last {
            out.push(toggle_line(&lines[j], any));
        } else {
            out.push(copy_range(&lines[j], 0, lines[j].len()));
            assert(lines@[j as int]@.subrange(0, lines@[j as int]@.len() as int) =~= lines@[j as int]@);
        }
    }
    let joined = join_lines(&out, '\n');
    assert(char_views(out@) =~= Seq::new(
        ls.len(),
        |m: int|
            if first <= m <= last {
                toggled_line(ls[m], any)
            } else {
                ls[m]
            },
    ));
    Some((string_from_chars(&joined), first as u32))
}


/// Toggling a line adds no newline to it.
proof fn lemma_toggled_no_newline(l: Seq<char>, comment: bool)
    requires
        no_newline(l),
    ensures
        no_newline(toggled_line(l, comment)),
{
    if !is_blank(l) {
        lemma_indent_split(l);
        let w = indent_of(l);
        let t = trim_start_seq(l);
        assert forall|j: int| 0 <= j < w.len() implies w[j] != '\n' by {
            assert(w[j] == l[j]);
        }
        assert forall|j: int| 0 <= j < t.len() implies t[j] != '\n' by {
            assert(t[j] == l[w.len() + j]);
        }
        let u = uncommented(t);
        assert forall|j: int| 0 <= j < u.len() implies u[j] != '\n' by {
            if occurs_at(t, seq!['-', '-', ' '], 0) {
                assert(u[j] == t[j + 3]);
            } else if occurs_at(t, seq!['-', '-'], 0) {
                assert(u[j] == t[j + 2]);
            }
        }
        let r = toggled_line(l, comment);
        assert forall|j: int| 0 <= j < r.len() implies #[trigger] r[j] != '\n' by {
            if comment {
                assert(r =~= w + seq!['-', '-', ' '] + t);
                if j < w.len() {
                    assert(r[j] == w[j]);
                } else if j >= w.len() + 3 {
                    assert(r[j] == t[j - w.len() - 3]);
                }
            } else {
                assert(r =~= w + u);
                if j < w.len() {
                    assert(r[j] == w[j]);
                } else {
                    assert(r[j] == u[j - w.len()]);
                }
            }
        }
    }
}

/// Toggling the comments of the selected lines of a text twice gives the
/// text back when the first toggle comments them out, provided the second
/// selection covers the same lines of the new text.
pub proof fn lemma_toggle_text_twice(text: Seq<char>, s: nat, e: nat, s2: nat, e2: nat)
    requires
        any_uncommented(pieces(text), first_selected(text, s), last_selected(text, s, e)),
        first_selected(toggled_text(text, s, e), s2) == first_selected(text, s),
        last_selected(toggled_text(text, s, e), s2, e2) == last_selected(text, s, e),
    ensures
        toggled_text(toggled_text(text, s, e), s2, e2) == text,
{
    let ls = pieces(text);
    let first = first_selected(text, s);
    let last = last_selected(text, s, e);
    lemma_pieces_no_newline(text);
    let once = toggle_lines(ls, first, last);
    assert forall|i: int| 0 <= i < once.len() implies no_newline(#[trigger] once[i]) by {
        assert(no_newline(ls[i]));
        if first <= i <= last {
            lemma_toggled_no_newline(ls[i], any_uncommented(ls, first, last));
        }
    }
    let t2 = toggled_text(text, s, e);
    assert(t2 == join_with(once, '\n'));
    lemma_pieces_join(once);
    assert(pieces(t2) == once);
    lemma_toggle_twice_restores(ls, first, last);
    lemma_join_pieces(text);
}

/// More characters never hold fewer newlines.
proof fn lemma_newlines_before_monotone(t: Seq<char>, a: nat, b: nat)
    requires
        a <= b,
    ensures
        newlines_before(t, a) <= newlines_before(t, b),
    decreases b,
{
    if a < b {
        let p = (b - 1) as nat;
        lemma_newlines_before_monotone(t, a, p);
        if p < t.len() {
            let x = if b < t.len() {
                t.take(b as int)
            } else {
                t
            };
            assert(x.drop_last() =~= t.take(p as int));
            assert(count_newlines(x) >= count_newlines(x.drop_last()));
        }
    }
}

/// Toggling the comments of a selection that is not empty changes no line
/// after the line of the selection's last character (the line that holds as
/// many newlines before it as come before that character), and keeps the
/// number of lines: a selection that ends just after a newline leaves the
/// next line as it is.
pub proof fn lemma_toggle_keeps_lines_after(text: Seq<char>, s: nat, e: nat, j: int)
    requires
        s < e,
        newlines_before(text, (e - 1) as nat) < j < pieces(text).len(),
    ensures
        pieces(toggled_text(text, s, e)).len() == pieces(text).len(),
        pieces(toggled_text(text, s, e))[j] == pieces(text)[j],
{
    let ls = pieces(text);
    let first = first_selected(text, s);
    let last = last_selected(text, s, e);
    lemma_pieces_no_newline(text);
    let once = toggle_lines(ls, first, last);
    assert forall|i: int| 0 <= i < once.len() implies no_newline(#[trigger] once[i]) by {
        assert(no_newline(ls[i]));
        if first <= i <= last {
            lemma_toggled_no_newline(ls[i], any_uncommented(ls, first, last));
        }
    }
    lemma_pieces_join(once);
    assert(pieces(toggled_text(text, s, e)) == once);
    lemma_newlines_before_monotone(text, s, (e - 1) as nat);
    assert(last <= newlines_before(text, (e - 1) as nat));
}

/// Toggling the comments of a selection that is not empty toggles each line
/// from the line of the selection's start to the line of its last character:
/// all of them are commented out when one of them is neither blank nor a
/// comment yet, else all are uncommented.
pub proof fn lemma_toggle_selected_lines(text: Seq<char>, s: nat, e: nat, j: int)
    requires
        s < e,
        newlines_before(text, s) <= j <= newlines_before(text, (e - 1) as nat),
        j < pieces(text).len(),
    ensures
        pieces(toggled_text(text, s, e))[j] == toggled_line(
            pieces(text)[j],
            exists|i: int|
                newlines_before(text, s) <= i <= newlines_before(text, (e - 1) as nat) && i < pieces(text).len()
                    && !is_blank(#[trigger] pieces(text)[i]) && !is_commented(pieces(text)[i]),
        ),
{
    let ls = pieces(text);
    let first = first_selected(text, s);
    let last = last_selected(text, s, e);
    lemma_pieces_no_newline(text);
    let once = toggle_lines(ls, first, last);
    assert forall|i: int| 0 <= i < once.len() implies no_newline(#[trigger] once[i]) by {
        assert(no_newline(ls[i]));
        if first <= i <= last {
            lemma_toggled_no_newline(ls[i], any_uncommented(ls, first, last));
        }
    }
    lemma_pieces_join(once);
    assert(pieces(toggled_text(text, s, e)) == once);
    lemma_newlines_before_monotone(text, s, (e - 1) as nat);
    assert(first == newlines_before(text, s));
    assert(first <= j <= last);
}

/// The newlines of two texts put together are those of each.
proof fn lemma_count_newlines_concat(a: Seq<char>, b: Seq<char>)
    ensures
        count_newlines(a + b) == count_newlines(a) + count_newlines(b),
    decreases b.len(),
{
    if b.len() == 0 {
        assert(a + b =~= a);
    } else {
        assert((a + b).drop_last() =~= a + b.drop_last());
        assert((a + b).last() == b.last());
        lemma_count_newlines_concat(a, b.drop_last());
    }
}

/// A text without newlines counts none.
proof fn lemma_count_no_newline(a: Seq<char>)
    requires
        forall|j: int| 0 <= j < a.len() ==> a[j] != '\n',
    ensures
        count_newlines(a) == 0,
    decreases a.len(),
{
    if a.len() > 0 {
        assert(a.last() == a[a.len() - 1]);
        lemma_count_no_newline(a.drop_last());
    }
}

/// A text has one line more than it has newlines.
proof fn lemma_pieces_count(t: Seq<char>)
    ensures
        pieces(t).len() == count_newlines(t) + 1,
    decreases t.len(),
{
    lemma_newline_pos_bound(t);
    let k = newline_pos(t) as int;
    if k == t.len() {
        lemma_count_no_newline(t);
    } else {
        let rest = t.skip(k + 1);
        lemma_pieces_count(rest);
        assert(t =~= t.take(k) + seq!['\n'] + rest);
        lemma_count_no_newline(t.take(k));
        let nl = seq!['\n'];
        lemma_count_newlines_concat(t.take(k), nl);
        lemma_count_newlines_concat(t.take(k) + nl, rest);
        assert(count_newlines(nl) == 1) by {
            assert(nl.last() == '\n');
            assert(nl.drop_last() =~= Seq::<char>::empty());
            assert(count_newlines(nl.drop_last()) == 0);
        }
    }
}

/// The first line toggled, which toggling hands back, is the line of the
/// selection's start: as many newlines come before it as before the start.
/// No line before it changes.
pub proof fn lemma_toggle_first_line(text: Seq<char>, s: nat, e: nat, j: int)
    requires
        0 <= j < newlines_before(text, s),
    ensures
        first_selected(text, s) == newlines_before(text, s),
        pieces(toggled_text(text, s, e))[j] == pieces(text)[j],
{
    let ls = pieces(text);
    lemma_pieces_count(text);
    lemma_newlines_before_monotone(text, s, if s < text.len() { text.len() } else { s });
    assert(newlines_before(text, s) <= count_newlines(text));
    let first = first_selected(text, s);
    let last = last_selected(text, s, e);
    lemma_pieces_no_newline(text);
    let once = toggle_lines(ls, first, last);
    assert forall|i: int| 0 <= i < once.len() implies no_newline(#[trigger] once[i]) by {
        assert(no_newline(ls[i]));
        if first <= i <= last {
            lemma_toggled_no_newline(ls[i], any_uncommented(ls, first, last));
        }
    }
    lemma_pieces_join(once);
    assert(pieces(toggled_text(text, s, e)) == once);
}

} // verus!
