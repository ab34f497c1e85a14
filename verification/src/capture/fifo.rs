//! What capturing from a pipe and replaying into one decide: when a capture is
//! over, how the pace is recorded, and in which pieces a capture is replayed.

use vstd::prelude::*;

use crate::strings::{
    concat, decimal, from_chars, pieces, split, texts, to_chars, to_decimal, trim, trimmed,
};

verus! {

broadcast use vstd::seq::group_seq_axioms;

// --- capturing ------------------------------------------------------------

/// A capture in progress: how many writers there were, and since when nothing
/// has come.
#[derive(Debug)]
pub struct Capture {
    sessions: u32,
    had_data: bool,
    /// When something last came, in milliseconds.
    last_ms: u64,
    /// How long nothing may come, in seconds.
    limit_secs: Option<u64>,
}

/// A [`Capture`] as values.
pub struct CaptureView {
    pub sessions: u32,
    pub had_data: bool,
    pub last_ms: u64,
    pub limit_secs: Option<u64>,
}

impl View for Capture {
    type V = CaptureView;

    closed spec fn view(&self) -> CaptureView {
        CaptureView {
            sessions: self.sessions,
            had_data: self.had_data,
            last_ms: self.last_ms,
            limit_secs: self.limit_secs,
        }
    }
}

impl CaptureView {
    /// Whether nothing has come for too long.
    pub open spec fn is_over(self, now_ms: u64) -> bool {
        match self.limit_secs {
            Some(limit) => now_ms - self.last_ms >= limit * 1000,
            None => false,
        }
    }
}

impl Capture {
    /// A capture that begins now.
    pub fn new(limit_secs: Option<u64>, now_ms: u64) -> (r: Capture)
        ensures
            r@ == (CaptureView { sessions: 0, had_data: false, last_ms: now_ms, limit_secs }),
    {
        Capture { sessions: 0, had_data: false, last_ms: now_ms, limit_secs }
    }

    /// Whether nothing has come for too long.
    pub fn is_over(&self, now_ms: u64) -> (r: bool)
        ensures
            r == self@.is_over(now_ms),
    {
        match self.limit_secs {
            Some(limit) => now_ms as i128 - self.last_ms as i128 >= limit as i128 * 1000,
            None => false,
        }
    }

    /// How many writers there were.
    pub fn sessions(&self) -> (r: u32)
        ensures
            r == self@.sessions,
    {
        self.sessions
    }

    /// Whether another writer can be counted.
    pub fn can_count(&self) -> (r: bool)
        ensures
            r == (self@.sessions < u32::MAX),
    {
        self.sessions < u32::MAX
    }

    /// Something came. The first bytes after an end are a new writer's.
    pub fn data(&mut self, now_ms: u64)
        requires
            old(self)@.sessions < u32::MAX,
        ensures
            final(self)@ == (CaptureView {
                sessions: if old(self)@.had_data {
                    old(self)@.sessions
                } else {
                    (old(self)@.sessions + 1) as u32
                },
                had_data: true,
                last_ms: now_ms,
                limit_secs: old(self)@.limit_secs,
            }),
    {
        if !self.had_data {
            self.sessions = self.sessions + 1;
            self.had_data = true;
        }
        self.last_ms = now_ms;
    }

    /// The writer is gone.
    pub fn end(&mut self)
        ensures
            final(self)@ == (CaptureView { had_data: false, ..old(self)@ }),
    {
        self.had_data = false;
    }
}

/// The line that records when how many bytes came.
pub open spec fn timing_text(at_ms: nat, len: nat) -> Seq<char> {
    "{\"at_ms\":"@ + decimal(at_ms) + ",\"len\":"@ + decimal(len) + "}\n"@
}

/// The line that records when how many bytes came.
pub fn timing_line(at_ms: u64, len: usize) -> (r: String)
    ensures
        r@ == timing_text(at_ms as nat, len as nat),
{
    let mut line = concat("{\"at_ms\":", to_decimal(at_ms).as_str());
    line.append(",\"len\":");
    line.append(to_decimal(len as u64).as_str());
    line.append("}\n");
    line
}

/// A downstream pipe that receives a copy of everything captured.
///
/// There being no reader is not fatal: the capture is the deliverable, and the
/// copy is a convenience.
#[derive(Debug)]
pub struct Fanout {
    open: bool,
    warned: bool,
}

/// What to do with a chunk.
#[derive(Debug, Clone, Copy, PartialEq, Eq, Structural)]
pub enum Forward {
    Write,
    /// Nothing reads the pipe: drop the chunk, and say so the first time.
    Drop { warn: bool },
}

impl Fanout {
    pub closed spec fn is_open(&self) -> bool {
        self.open
    }

    pub closed spec fn has_warned(&self) -> bool {
        self.warned
    }

    /// Nothing is open yet.
    pub fn new() -> (r: Fanout)
        ensures
            !r.is_open(),
            !r.has_warned(),
    {
        Fanout { open: false, warned: false }
    }

    /// Whether the pipe has to be opened for the next chunk.
    pub fn must_open(&self) -> (r: bool)
        ensures
            r == !self.is_open(),
    {
        !self.open
    }

    /// The pipe was opened, or could not be.
    pub fn opened(&mut self, ok: bool) -> (r: Forward)
        ensures
            final(self).is_open() == ok,
            final(self).has_warned() == !ok,
            r == if ok {
                Forward::Write
            } else {
                Forward::Drop { warn: !old(self).has_warned() }
            },
    {
        if ok {
            self.open = true;
            self.warned = false;
            Forward::Write
        } else {
            let warn = !self.warned;
            self.open = false;
            self.warned = true;
            Forward::Drop { warn }
        }
    }

    /// A write failed: the pipe is opened again for the next chunk.
    pub fn failed(&mut self)
        ensures
            !final(self).is_open(),
            final(self).has_warned() == old(self).has_warned(),
    {
        self.open = false;
    }
}

// --- pace -----------------------------------------------------------------

/// The unsigned number at a key of a JSON text, or the words in which the text
/// is refused.
pub uninterp spec fn json_number(text: Seq<char>, key: Seq<char>) -> Result<Option<u64>, Seq<char>>;

/// Calls `serde_json::from_str`, and reads one member with
/// `serde_json::Value::get` and `serde_json::Value::as_u64`. What comes back is
/// a function of the text and the key, named by [`json_number`].
#[verifier::external_body]
fn read_number(text: &str, key: &str) -> (r: Result<Option<u64>, String>)
    ensures
        match r {
            Ok(n) => json_number(text@, key@) == Ok::<Option<u64>, Seq<char>>(n),
            Err(e) => json_number(text@, key@) == Err::<Option<u64>, Seq<char>>(e@),
        },
{
    match serde_json::from_str::<serde_json::Value>(text) {
        Ok(v) => Ok(v.get(key).and_then(|x| x.as_u64())),
        Err(e) => Err(e.to_string()),
    }
}

/// Recorded inter-read timing, so that a replay can reproduce the pace.
#[derive(Debug)]
pub struct Timing {
    /// When, in milliseconds, and how many bytes.
    pub entries: Vec<(u64, u64)>,
}

/// A line of a recording that could not be read.
#[derive(Debug)]
pub struct BadLine {
    pub line: String,
    pub source: String,
}

impl BadLine {
    /// What the user is told.
    pub fn message(&self) -> (r: String)
        ensures
            r@ == "parsing timing line: "@ + self.line@,
    {
        concat("parsing timing line: ", self.line.as_str())
    }
}

/// A number, or zero where there is none.
pub open spec fn or_zero(n: Option<u64>) -> u64 {
    match n {
        Some(n) => n,
        None => 0,
    }
}

/// A line of a recording, as it reads: the line ends before the newline, and
/// before a carriage return in front of that.
pub open spec fn line_at(parts: Seq<Seq<char>>, i: int) -> Seq<char> {
    let p = parts[i];
    if i < parts.len() - 1 && p.len() > 0 && p.last() == '\r' {
        p.drop_last()
    } else {
        p
    }
}

/// What the lines from one on record, or the first line that cannot be read.
/// Blank lines record nothing.
pub open spec fn recorded(parts: Seq<Seq<char>>, i: int) -> Result<
    Seq<(u64, u64)>,
    (Seq<char>, Seq<char>),
>
    decreases parts.len() - i,
{
    if i < 0 || i >= parts.len() {
        Ok(Seq::empty())
    } else {
        let line = line_at(parts, i);
        if trimmed(line).len() == 0 {
            recorded(parts, i + 1)
        } else {
            match (json_number(line, "at_ms"@), json_number(line, "len"@)) {
                (Err(e), _) => Err((line, e)),
                (_, Err(e)) => Err((line, e)),
                (Ok(at), Ok(len)) => match recorded(parts, i + 1) {
                    Ok(rest) => Ok(seq![(or_zero(at), or_zero(len))] + rest),
                    Err(e) => Err(e),
                },
            }
        }
    }
}

fn zero_if_none(n: Option<u64>) -> (r: u64)
    ensures
        r == or_zero(n),
{
    match n {
        Some(n) => n,
        None => 0,
    }
}

/// What was recorded so far, in front of what is still to be read.
spec fn recorded_after(front: Seq<(u64, u64)>, parts: Seq<Seq<char>>, i: int) -> Result<
    Seq<(u64, u64)>,
    (Seq<char>, Seq<char>),
> {
    match recorded(parts, i) {
        Ok(rest) => Ok(front + rest),
        Err(e) => Err(e),
    }
}

/// The pieces of a replay, from a place and a time on.
pub open spec fn spans(
    entries: Seq<(u64, u64)>,
    off: int,
    prev_at: u64,
    total: int,
) -> Seq<(int, int, int)>
    decreases entries.len(),
{
    if entries.len() == 0 || off >= total {
        if off < total {
            seq![(off, total, 0)]
        } else {
            Seq::empty()
        }
    } else {
        let (at, len) = entries[0];
        let end = if off + len < total {
            off + len
        } else {
            total
        };
        let delay = if at > prev_at {
            at - prev_at
        } else {
            0
        };
        seq![(off, end, delay)] + spans(entries.drop_first(), end, at, total)
    }
}

/// Pieces as values.
pub open spec fn spans_view(s: Seq<(usize, usize, u64)>) -> Seq<(int, int, int)> {
    s.map_values(|x: (usize, usize, u64)| (x.0 as int, x.1 as int, x.2 as int))
}

impl Timing {
    /// Read a recording.
    pub fn parse(text: &str) -> (r: Result<Timing, BadLine>)
        ensures
            match recorded(pieces(text@, '\n'), 0) {
                Ok(entries) => r matches Ok(t) && t.entries@ == entries,
                Err((line, source)) => r matches Err(e) && e.line@ == line && e.source@ == source,
            },
    {
        let lines = split(&to_chars(text), '\n');
        let ghost parts = pieces(text@, '\n');
        let mut entries: Vec<(u64, u64)> = Vec::new();
        let mut i: usize = 0;
        proof {
            match recorded(parts, 0) {
                Ok(rest) => {
                    assert(Seq::<(u64, u64)>::empty() + rest == rest);
                },
                Err(_) => {},
            }
        }
        while i < lines.len()
            invariant
                i <= lines@.len(),
                parts == pieces(text@, '\n'),
                texts(lines@) == parts,
                recorded(parts, 0) == recorded_after(entries@, parts, i as int),
            decreases lines.len() - i,
        {
            assert(parts[i as int] == lines@[i as int]@);
            let mut c = to_chars(lines[i].as_str());
            let n: usize = c.len();
            if i < lines.len() - 1 && n > 0 && c[n - 1] == '\r' {
                let _ = c.pop();
            }
            let line = from_chars(&c);
            assert(line@ == line_at(parts, i as int));
            if trim(line.as_str()).as_str().unicode_len() > 0 {
                let at = match read_number(line.as_str(), "at_ms") {
                    Ok(n) => n,
                    Err(source) => {
                        return Err(BadLine { line, source });
                    },
                };
                let len = match read_number(line.as_str(), "len") {
                    Ok(n) => n,
                    Err(source) => {
                        return Err(BadLine { line, source });
                    },
                };
                let ghost before = entries@;
                entries.push((zero_if_none(at), zero_if_none(len)));
                proof {
                    match recorded(parts, i + 1) {
                        Ok(rest) => {
                            assert(before + (seq![(or_zero(at), or_zero(len))] + rest) == entries@
                                + rest);
                        },
                        Err(_) => {},
                    }
                }
            }
            i = i + 1;
        }
        assert(entries@ + Seq::<(u64, u64)>::empty() == entries@);
        Ok(Timing { entries })
    }

    /// `(start, end, delay_before_ms)` spans covering `total` bytes.
    ///
    /// A capture that was packed is shorter than what was recorded, so the
    /// spans are clipped and any remainder is emitted as a final chunk.
    pub fn chunks(&self, total: usize) -> (r: Vec<(usize, usize, u64)>)
        ensures
            spans_view(r@) == spans(self.entries@, 0, 0, total as int),
    {
        let ghost whole = spans(self.entries@, 0, 0, total as int);
        let mut out: Vec<(usize, usize, u64)> = Vec::new();
        let mut off: usize = 0;
        let mut prev_at: u64 = 0;
        let mut i: usize = 0;
        assert(self.entries@.skip(0) == self.entries@);
        assert(spans_view(out@) + whole == whole);
        while i < self.entries.len() && off < total
            invariant
                i <= self.entries@.len(),
                off <= total,
                whole == spans_view(out@) + spans(
                    self.entries@.skip(i as int),
                    off as int,
                    prev_at,
                    total as int,
                ),
            decreases self.entries.len() - i,
        {
            let (at, len) = self.entries[i];
            let ghost rest = self.entries@.skip(i as int);
            assert(rest[0] == self.entries@[i as int]);
            assert(rest.drop_first() == self.entries@.skip(i + 1));
            let end: usize = if len < (total - off) as u64 {
                off + len as usize
            } else {
                total
            };
            let delay: u64 = if at > prev_at {
                at - prev_at
            } else {
                0
            };
            let ghost before = out@;
            out.push((off, end, delay));
            proof {
                let tail = spans(rest.drop_first(), end as int, at, total as int);
                assert(spans_view(out@) == spans_view(before).push(
                    (off as int, end as int, delay as int),
                ));
                assert(spans_view(before) + (seq![(off as int, end as int, delay as int)] + tail)
                    == spans_view(out@) + tail);
            }
            prev_at = at;
            off = end;
            i = i + 1;
        }
        if off < total {
            let ghost before = out@;
            out.push((off, total, 0));
            assert(spans_view(out@) == spans_view(before).push((off as int, total as int, 0int)));
            assert(spans_view(before) + seq![(off as int, total as int, 0int)] == spans_view(out@));
        } else {
            assert(spans_view(out@) + Seq::<(int, int, int)>::empty() == spans_view(out@));
        }
        out
    }
}

/// The pieces of a replay at full speed, from a place on.
pub open spec fn even_spans(off: int, size: int, total: int) -> Seq<(int, int, int)>
    decreases total - off,
{
    if off >= total || size <= 0 {
        Seq::empty()
    } else {
        let end = if off + size < total {
            off + size
        } else {
            total
        };
        seq![(off, end, 0)] + even_spans(end, size, total)
    }
}

/// How large the pieces of a replay at full speed are: the whole, unless it is
/// said.
pub open spec fn piece_size(chunk: Option<usize>, total: usize) -> int {
    let size = match chunk {
        Some(n) => n,
        None => total,
    };
    if size == 0 {
        1
    } else {
        size as int
    }
}

/// The pieces of a replay at full speed.
pub fn even_chunks(chunk: Option<usize>, total: usize) -> (r: Vec<(usize, usize, u64)>)
    ensures
        spans_view(r@) == even_spans(0, piece_size(chunk, total), total as int),
{
    let mut size: usize = match chunk {
        Some(n) => n,
        None => total,
    };
    if size == 0 {
        size = 1;
    }
    let ghost whole = even_spans(0, size as int, total as int);
    let mut out: Vec<(usize, usize, u64)> = Vec::new();
    let mut off: usize = 0;
    assert(spans_view(out@) + whole == whole);
    while off < total
        invariant
            off <= total,
            size > 0,
            whole == spans_view(out@) + even_spans(off as int, size as int, total as int),
        decreases total - off,
    {
        let end: usize = if size < total - off {
            off + size
        } else {
            total
        };
        let ghost before = out@;
        out.push((off, end, 0));
        proof {
            let tail = even_spans(end as int, size as int, total as int);
            assert(spans_view(out@) == spans_view(before).push((off as int, end as int, 0int)));
            assert(spans_view(before) + (seq![(off as int, end as int, 0int)] + tail)
                == spans_view(out@) + tail);
        }
        off = end;
    }
    assert(spans_view(out@) + Seq::<(int, int, int)>::empty() == spans_view(out@));
    out
}

// --- laws -----------------------------------------------------------------

/// Whether pieces cover everything between two places: each begins where the
/// one before it ends.
pub open spec fn covers(s: Seq<(int, int, int)>, from: int, to: int) -> bool
    decreases s.len(),
{
    if s.len() == 0 {
        from == to
    } else {
        s[0].0 == from && s[0].1 >= from && covers(s.drop_first(), s[0].1, to)
    }
}

/// A replay covers the capture exactly: its pieces follow each other without a
/// gap, from the first byte to the last, whatever was recorded.
pub proof fn a_paced_replay_covers(entries: Seq<(u64, u64)>, off: int, prev_at: u64, total: int)
    requires
        0 <= off <= total,
    ensures
        covers(spans(entries, off, prev_at, total), off, total),
    decreases entries.len(),
{
    let s = spans(entries, off, prev_at, total);
    if entries.len() == 0 || off >= total {
        if off < total {
            assert(s.drop_first() == Seq::<(int, int, int)>::empty());
            assert(covers(s.drop_first(), total, total));
        }
    } else {
        let (at, len) = entries[0];
        let end = if off + len < total {
            off + len
        } else {
            total
        };
        a_paced_replay_covers(entries.drop_first(), end, at, total);
        assert(s.drop_first() == spans(entries.drop_first(), end, at, total));
    }
}

/// A replay at full speed covers the capture exactly, in pieces of any size.
pub proof fn an_even_replay_covers(off: int, size: int, total: int)
    requires
        0 <= off <= total,
        size > 0,
    ensures
        covers(even_spans(off, size, total), off, total),
    decreases total - off,
{
    let s = even_spans(off, size, total);
    if off < total {
        if off + size < total {
            an_even_replay_covers(off + size, size, total);
            assert(s.drop_first() == even_spans(off + size, size, total));
        } else {
            assert(s.drop_first() == even_spans(total, size, total));
            assert(covers(s.drop_first(), total, total));
        }
    }
}

} // verus!
