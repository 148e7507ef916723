//! Log entries: which ones are recorded, how they are shown, the bounded
//! buffer they are collected in and the console history that tracks its
//! widest line.

use vstd::prelude::*;

use crate::text::{occurs_at, starts_with_chars, string_from_chars, to_chars};

verus! {

/// The severity of a log entry.
#[derive(Clone, Copy, Debug, PartialEq, Eq, Structural)]
pub enum LogLevel {
    Error,
    Warn,
    Info,
    Debug,
    Trace,
}

/// A log entry.
#[derive(Clone, Debug)]
pub struct LogEntry {
    pub timestamp_ms: u64,
    pub level: LogLevel,
    pub target: String,
    pub message: String,
}

/// How many entries the log buffer keeps.
pub const MAX_BUFFER: usize = 20_000;

/// How many entries the console keeps.
pub const MAX_LOGS: usize = 5000;

/// The label of a level.
pub open spec fn level_text(level: LogLevel) -> Seq<char> {
    match level {
        LogLevel::Error => seq!['E', 'R', 'R', 'O', 'R'],
        LogLevel::Warn => seq!['W', 'A', 'R', 'N'],
        LogLevel::Info => seq!['I', 'N', 'F', 'O'],
        LogLevel::Debug => seq!['D', 'E', 'B', 'U', 'G'],
        LogLevel::Trace => seq!['T', 'R', 'A', 'C', 'E'],
    }
}

/// The label of a level.
pub fn level_label(level: LogLevel) -> (s: String)
    ensures
        s@ == level_text(level),
{
    let mut out: Vec<char> = Vec::new();
    match level {
        LogLevel::Error => {
            out.push('E');
            out.push('R');
            out.push('R');
            out.push('O');
            out.push('R');
        },
        LogLevel::Warn => {
            out.push('W');
            out.push('A');
            out.push('R');
            out.push('N');
        },
        LogLevel::Info => {
            out.push('I');
            out.push('N');
            out.push('F');
            out.push('O');
        },
        LogLevel::Debug => {
            out.push('D');
            out.push('E');
            out.push('B');
            out.push('U');
            out.push('G');
        },
        LogLevel::Trace => {
            out.push('T');
            out.push('R');
            out.push('A');
            out.push('C');
            out.push('E');
        },
    }
    assert(out@ =~= level_text(level));
    string_from_chars(&out)
}

/// `s` padded with spaces on the right to at least five characters.
pub open spec fn pad5(s: Seq<char>) -> Seq<char> {
    if s.len() >= 5 {
        s
    } else {
        s + Seq::new((5 - s.len()) as nat, |i: int| ' ')
    }
}

/// The console line of an entry: the level label padded to five characters,
/// two spaces, the target, two spaces, the message.
pub open spec fn log_line(e: LogEntry) -> Seq<char> {
    pad5(level_text(e.level)) + seq![' ', ' '] + e.target@ + seq![' ', ' '] + e.message@
}

/// Appends `src` to `out`.
fn push_chars(out: &mut Vec<char>, src: &Vec<char>)
    ensures
        final(out)@ == old(out)@ + src@,
{
    let ghost start = out@;
    for i in 0..src.len()
        invariant
            out@ == start + src@.take(i as int),
    {
        out.push(src[i]);
        assert(src@.take(i + 1) =~= src@.take(i as int).push(src@[i as int]));
    }
    assert(src@.take(src@.len() as int) == src@);
}

/// The console line of an entry.
pub fn format_log_entry(entry: &LogEntry) -> (s: String)
    ensures
        s@ == log_line(*entry),
{
    let label = to_chars(level_label(entry.level).as_str());
    let mut out: Vec<char> = Vec::new();
    push_chars(&mut out, &label);
    while out.len() < 5
        invariant
            label@ == level_text(entry.level),
            label@.len() <= out@.len() <= 5,
            out@ == label@ + Seq::new((out@.len() - label@.len()) as nat, |i: int| ' '),
        decreases 5 - out@.len(),
    {
        let ghost before = out@;
        out.push(' ');
        assert(out@ =~= label@ + Seq::new((out@.len() - label@.len()) as nat, |i: int| ' '));
    }
    assert(out@ =~= pad5(level_text(entry.level)));
    out.push(' ');
    out.push(' ');
    push_chars(&mut out, &to_chars(entry.target.as_str()));
    out.push(' ');
    out.push(' ');
    push_chars(&mut out, &to_chars(entry.message.as_str()));
    assert(out@ =~= log_line(*entry));
    string_from_chars(&out)
}

/// The width of an entry: the characters of its target and message.
pub open spec fn entry_width(e: LogEntry) -> nat {
    e.target@.len() + e.message@.len()
}

/// The width of an entry (capped at `usize::MAX`).
pub fn line_len(entry: &LogEntry) -> (n: usize)
    ensures
        n == if entry_width(*entry) <= usize::MAX {
            entry_width(*entry)
        } else {
            usize::MAX as nat
        },
{
    let t = to_chars(entry.target.as_str()).len();
    let m = to_chars(entry.message.as_str()).len();
    t.saturating_add(m)
}

/// The width of an entry as the console measures it.
pub open spec fn width_of(e: LogEntry) -> nat {
    if entry_width(e) <= usize::MAX {
        entry_width(e)
    } else {
        usize::MAX as nat
    }
}


/// `s` without its oldest entries beyond the last `n`.
pub open spec fn keep_last<T>(s: Seq<T>, n: nat) -> Seq<T> {
    if s.len() > n {
        s.subrange(s.len() - n, s.len() as int)
    } else {
        s
    }
}

/// Keeping the last `n` entries keeps as many as there are, up to `n`, and
/// they are the newest ones, in their order: the entry at position `i` of
/// what is kept is the one that many places from the end of `s`.
pub proof fn lemma_keep_last_newest<T>(s: Seq<T>, n: nat)
    ensures
        keep_last(s, n).len() == if s.len() < n { s.len() } else { n },
        forall|i: int|
            0 <= i < keep_last(s, n).len() ==> #[trigger] keep_last(s, n)[i] == s[s.len() - keep_last(s, n).len() + i],
{
}

/// `longest` is the first of the widest entries of `s` and `longest_len`
/// its width; both are zero when `s` is empty.
pub open spec fn tracks_widest(s: Seq<LogEntry>, longest: int, longest_len: nat) -> bool {
    if s.len() == 0 {
        longest == 0 && longest_len == 0
    } else {
        &&& 0 <= longest < s.len()
        &&& width_of(s[longest]) == longest_len
        &&& forall|i: int| 0 <= i < s.len() ==> #[trigger] width_of(s[i]) <= longest_len
        &&& forall|i: int| 0 <= i < longest ==> #[trigger] width_of(s[i]) < longest_len
    }
}

/// The console's history: the last entries, and which of them is widest.
pub struct LogHistory {
    pub logs: Vec<LogEntry>,
    pub longest: usize,
    pub longest_len: usize,
}

impl LogHistory {
    /// The history holds at most `MAX_LOGS` entries and tracks its widest one.
    pub open spec fn well_formed(&self) -> bool {
        &&& self.logs@.len() <= MAX_LOGS
        &&& tracks_widest(self.logs@, self.longest as int, self.longest_len as nat)
    }

    /// An empty history.
    pub fn new() -> (h: Self)
        ensures
            h.well_formed(),
            h.logs@.len() == 0,
    {
        LogHistory { logs: Vec::new(), longest: 0, longest_len: 0 }
    }

    /// Forgets every entry.
    pub fn clear(&mut self)
        ensures
            final(self).well_formed(),
            final(self).logs@.len() == 0,
    {
        self.logs.clear();
        self.longest = 0;
        self.longest_len = 0;
    }

    /// Finds the first widest entry again.
    fn recompute_longest(&mut self)
        requires
            old(self).logs@.len() <= MAX_LOGS,
        ensures
            final(self).logs@ == old(self).logs@,
            final(self).well_formed(),
    {
        self.longest = 0;
        self.longest_len = 0;
        let n = self.logs.len();
        for i in 0..n
            invariant
                n == self.logs@.len(),
                n <= MAX_LOGS,
                self.logs@ == old(self).logs@,
                tracks_widest(self.logs@.take(i as int), self.longest as int, self.longest_len as nat),
        {
            let len = line_len(&self.logs[i]);
            proof {
                assert(self.logs@.take(i + 1) =~= self.logs@.take(i as int).push(self.logs@[i as int]));
            }
            if len > self.longest_len {
                self.longest_len = len;
                self.longest = i;
            }
            assert(tracks_widest(self.logs@.take(i + 1), self.longest as int, self.longest_len as nat));
        }
        assert(self.logs@.take(n as int) =~= self.logs@);
    }

    /// Appends the entries of `new`, keeps the last `MAX_LOGS` entries and
    /// keeps track of the first widest one.
    pub fn ingest(&mut self, new: Vec<LogEntry>)
        requires
            old(self).well_formed(),
        ensures
            final(self).well_formed(),
            final(self).logs@ == keep_last(old(self).logs@ + new@, MAX_LOGS as nat),
    {
        let ghost start = self.logs@;
        let ghost added = new@;
        for entry in it: new
            invariant
                it.seq() == added,
                self.logs@ == start + added.take(it.index() as int),
                tracks_widest(self.logs@, self.longest as int, self.longest_len as nat),
        {
            let len = line_len(&entry);
            let ghost before = self.logs@;
            if len > self.longest_len {
                self.longest_len = len;
                self.longest = self.logs.len();
            }
            self.logs.push(entry);
            proof {
                assert(added.take(it.index() + 1) =~= added.take(it.index() as int).push(entry));
                assert(self.logs@ =~= before.push(entry));
            }
            assert(tracks_widest(self.logs@, self.longest as int, self.longest_len as nat));
        }
        assert(added.take(added.len() as int) =~= added);
        if self.logs.len() > MAX_LOGS {
            let excess = self.logs.len() - MAX_LOGS;
            let ghost whole = self.logs@;
            let kept = self.logs.split_off(excess);
            self.logs = kept;
            assert(self.logs@ =~= keep_last(start + added, MAX_LOGS as nat));
            if self.longest >= excess {
                self.longest = self.longest - excess;
                assert forall|i: int| 0 <= i < self.logs@.len() implies #[trigger] width_of(self.logs@[i])
                    <= self.longest_len by {
                    assert(self.logs@[i] == whole[i + excess]);
                }
                assert forall|i: int| 0 <= i < self.longest implies #[trigger] width_of(self.logs@[i])
                    < self.longest_len by {
                    assert(self.logs@[i] == whole[i + excess]);
                }
                assert(self.logs@[self.longest as int] == whole[self.longest + excess]);
            } else {
                self.recompute_longest();
            }
        }
    }
}


/// Whether `target` lies under one of the crates whose entries are too
/// chatty to keep.
pub open spec fn is_noisy(target: Seq<char>) -> bool {
    ||| occurs_at(target, "gpui"@, 0)
    ||| occurs_at(target, "wgpu"@, 0)
    ||| occurs_at(target, "naga"@, 0)
    ||| occurs_at(target, "blade"@, 0)
    ||| occurs_at(target, "cosmic_text"@, 0)
    ||| occurs_at(target, "font_kit"@, 0)
    ||| occurs_at(target, "winit"@, 0)
    ||| occurs_at(target, "calloop"@, 0)
    ||| occurs_at(target, "zbus"@, 0)
    ||| occurs_at(target, "smol"@, 0)
    ||| occurs_at(target, "polling"@, 0)
    ||| occurs_at(target, "async_io"@, 0)
    ||| occurs_at(target, "async_executor"@, 0)
    ||| occurs_at(target, "tracing"@, 0)
    ||| occurs_at(target, "metal"@, 0)
    ||| occurs_at(target, "ash"@, 0)
    ||| occurs_at(target, "objc"@, 0)
    ||| occurs_at(target, "ureq"@, 0)
    ||| occurs_at(target, "rustls"@, 0)
    ||| occurs_at(target, "h2"@, 0)
    ||| occurs_at(target, "hyper"@, 0)
    ||| occurs_at(target, "webpki"@, 0)
}

/// Whether the characters `t` start with `p`.
fn has_prefix(t: &Vec<char>, p: &str) -> (r: bool)
    ensures
        r == occurs_at(t@, p@, 0),
{
    starts_with_chars(t, &to_chars(p))
}

/// Whether a record is kept: its level is `Debug` or more severe and its
/// target does not lie under a chatty crate.
pub fn should_record(level: LogLevel, target: &str) -> (r: bool)
    ensures
        r == (level != LogLevel::Trace && !is_noisy(target@)),
{
    if level == LogLevel::Trace {
        return false;
    }
    let t = to_chars(target);
    !(
    has_prefix(&t, "gpui")
        || has_prefix(&t, "wgpu")
        || has_prefix(&t, "naga")
        || has_prefix(&t, "blade")
        || has_prefix(&t, "cosmic_text")
        || has_prefix(&t, "font_kit")
        || has_prefix(&t, "winit")
        || has_prefix(&t, "calloop")
        || has_prefix(&t, "zbus")
        || has_prefix(&t, "smol")
        || has_prefix(&t, "polling")
        || has_prefix(&t, "async_io")
        || has_prefix(&t, "async_executor")
        || has_prefix(&t, "tracing")
        || has_prefix(&t, "metal")
        || has_prefix(&t, "ash")
        || has_prefix(&t, "objc")
        || has_prefix(&t, "ureq")
        || has_prefix(&t, "rustls")
        || has_prefix(&t, "h2")
        || has_prefix(&t, "hyper")
        || has_prefix(&t, "webpki")
    )
}

/// The names of the crates whose records are too chatty to keep.
pub open spec fn chatty_crates() -> Seq<Seq<char>> {
    seq![
        "gpui"@,
        "wgpu"@,
        "naga"@,
        "blade"@,
        "cosmic_text"@,
        "font_kit"@,
        "winit"@,
        "calloop"@,
        "zbus"@,
        "smol"@,
        "polling"@,
        "async_io"@,
        "async_executor"@,
        "tracing"@,
        "metal"@,
        "ash"@,
        "objc"@,
        "ureq"@,
        "rustls"@,
        "h2"@,
        "hyper"@,
        "webpki"@,
    ]
}

/// Whether `target` starts with `p`.
pub open spec fn starts_with_text(target: Seq<char>, p: Seq<char>) -> bool {
    p.len() <= target.len() && target.take(p.len() as int) == p
}

/// A record is kept exactly when its level is `Debug` or more severe and its
/// target starts with the name of none of the chatty crates (gpui, wgpu,
/// naga, blade, cosmic_text, font_kit, winit, calloop, zbus, smol, polling,
/// async_io, async_executor, tracing, metal, ash, objc, ureq, rustls, h2,
/// hyper and webpki).
pub proof fn lemma_record_kept(level: LogLevel, target: Seq<char>)
    ensures
        (level != LogLevel::Trace && !is_noisy(target)) <==> (level != LogLevel::Trace && forall|k: int|
            0 <= k < chatty_crates().len() ==> !starts_with_text(target, #[trigger] chatty_crates()[k])),
{
    let crates = chatty_crates();
    assert(crates.len() == 22);
    assert(crates[0] == "gpui"@);
    assert(crates[1] == "wgpu"@);
    assert(crates[2] == "naga"@);
    assert(crates[3] == "blade"@);
    assert(crates[4] == "cosmic_text"@);
    assert(crates[5] == "font_kit"@);
    assert(crates[6] == "winit"@);
    assert(crates[7] == "calloop"@);
    assert(crates[8] == "zbus"@);
    assert(crates[9] == "smol"@);
    assert(crates[10] == "polling"@);
    assert(crates[11] == "async_io"@);
    assert(crates[12] == "async_executor"@);
    assert(crates[13] == "tracing"@);
    assert(crates[14] == "metal"@);
    assert(crates[15] == "ash"@);
    assert(crates[16] == "objc"@);
    assert(crates[17] == "ureq"@);
    assert(crates[18] == "rustls"@);
    assert(crates[19] == "h2"@);
    assert(crates[20] == "hyper"@);
    assert(crates[21] == "webpki"@);
    assert forall|p: Seq<char>| #[trigger] starts_with_text(target, p) <==> occurs_at(target, p, 0) by {
        if p.len() <= target.len() {
            assert(target.take(p.len() as int) == target.subrange(0, p.len() as int));
        }
    }
    if !is_noisy(target) {
        assert forall|k: int| 0 <= k < crates.len() implies !starts_with_text(target, #[trigger] crates[k]) by {
            assert(!occurs_at(target, crates[k], 0));
        }
    }
}

/// The entries collected for the console, at most `MAX_BUFFER` of them.
pub struct LogBuffer {
    pub entries: Vec<LogEntry>,
}

impl LogBuffer {
    /// An empty buffer.
    pub fn new() -> (b: Self)
        ensures
            b.entries@.len() == 0,
    {
        LogBuffer { entries: Vec::new() }
    }

    /// Appends `entry`, dropping the oldest entries beyond `MAX_BUFFER`.
    pub fn push(&mut self, entry: LogEntry)
        ensures
            final(self).entries@ == keep_last(old(self).entries@.push(entry), MAX_BUFFER as nat),
    {
        self.entries.push(entry);
        let len = self.entries.len();
        if len > MAX_BUFFER {
            let kept = self.entries.split_off(len - MAX_BUFFER);
            self.entries = kept;
        }
    }

    /// Takes every entry out of the buffer, oldest first.
    pub fn drain(&mut self) -> (taken: Vec<LogEntry>)
        ensures
            taken@ == old(self).entries@,
            final(self).entries@.len() == 0,
    {
        self.entries.split_off(0)
    }
}

} // verus!
