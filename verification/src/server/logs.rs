//! Log capture for the GUI's Logs tab: a bounded line buffer with a version
//! counter, the splitting of what the log formatter writes into lines, and
//! the text decisions behind the log file that keeps history across runs.
//!
//! The buffer here is plain data; sharing it between the formatter and the
//! window, and the file itself, are the caller's.

use std::collections::VecDeque;
use std::path::PathBuf;

use vstd::prelude::*;
use vstd::utf8::*;

use crate::text::{
    chars_of, find_char, find_first, lemma_find_first, string_from_utf8_lossy, string_of,
    sub_chars, trim_end, trim_end_index, utf8_lossy,
};

verus! {

/// A filesystem path, carried through as it came.
#[verifier::external_type_specification]
#[verifier::external_body]
pub struct ExPathBuf(PathBuf);

/// A copy of a path.
///
/// Trusted: calls `PathBuf::clone`, which copies the path; the contract
/// claims the copy is the same path.
#[verifier::external_body]
fn copy_path(p: &PathBuf) -> (r: PathBuf)
    ensures
        r == *p,
{
    p.clone()
}

/// How many lines the tab keeps in memory. A long solving session is chatty
/// and the buffer is only ever read by a human scrolling back.
pub const CAPACITY: usize = 5000;

/// How large the log file may grow before the oldest half is dropped. Small
/// enough to stay cheap to load at startup, large enough to hold several
/// nights of solving.
pub const FILE_LIMIT: u64 = 4194304;

/// Bytes appended between two checks of the file's size.
pub const CHECK_EVERY: u64 = 65536;

/// The lines, each followed by a newline.
pub open spec fn joined(lines: Seq<Seq<char>>) -> Seq<char>
    decreases lines.len(),
{
    if lines.len() == 0 {
        seq![]
    } else {
        joined(lines.drop_last()) + lines.last() + seq!['\n']
    }
}

/// `str::lines`: split at `\n`, a `\r` before it dropped too; no final
/// empty line.
pub open spec fn lines_of(s: Seq<char>) -> Seq<Seq<char>>
    decreases s.len(),
{
    if s.len() == 0 {
        seq![]
    } else {
        let nl = find_first(s, '\n');
        proof { lemma_find_first(s, '\n'); }
        if nl == s.len() {
            seq![s]
        } else {
            let line = s.take(nl as int);
            let line = if line.len() > 0 && line.last() == '\r' { line.drop_last() } else { line };
            seq![line] + lines_of(s.skip(nl + 1int))
        }
    }
}

/// What a log buffer holds.
pub struct LogView {
    pub lines: Seq<Seq<char>>,
    /// Total lines ever appended (and clears), so a reader can tell what it
    /// has missed.
    pub version: u64,
    pub file: Option<PathBuf>,
    /// Bytes written to the file since its size was last checked.
    pub unchecked: u64,
}

/// The buffer after appending `line`: the oldest line goes when the buffer
/// is full.
pub open spec fn pushed(v: LogView, line: Seq<char>) -> LogView {
    LogView {
        lines: (if v.lines.len() == CAPACITY { v.lines.drop_first() } else { v.lines }).push(line),
        version: (v.version + 1) as u64,
        file: v.file,
        unchecked: v.unchecked,
    }
}

/// The buffer after appending `lines` one by one.
pub open spec fn pushed_all(v: LogView, lines: Seq<Seq<char>>) -> LogView
    decreases lines.len(),
{
    if lines.len() == 0 {
        v
    } else {
        pushed(pushed_all(v, lines.drop_last()), lines.last())
    }
}

/// The buffer after a clear: empty, and one version on.
pub open spec fn cleared(v: LogView) -> LogView {
    LogView { lines: Seq::<Seq<char>>::empty(), version: (v.version + 1) as u64, unchecked: 0, ..v }
}

/// What `appended_since(version)` gives on a buffer `v`: the version and
/// the text of the lines appended since `version`, or `None` when more
/// were appended than the buffer holds.
pub open spec fn appended_view(v: LogView, version: u64) -> Option<(u64, Seq<char>)> {
    let new = if v.version >= version { v.version - version } else { 0 };
    if new > v.lines.len() {
        None
    } else {
        Some((v.version, joined(v.lines.skip(v.lines.len() - new))))
    }
}

/// A call that changes what a log buffer holds.
pub enum LogCall {
    Push(Seq<char>),
    Clear,
}

/// The buffer after `calls`, one after another.
pub open spec fn after_calls(v: LogView, calls: Seq<LogCall>) -> LogView
    decreases calls.len(),
{
    if calls.len() == 0 {
        v
    } else {
        let w = after_calls(v, calls.drop_last());
        match calls.last() {
            LogCall::Push(l) => pushed(w, l),
            LogCall::Clear => cleared(w),
        }
    }
}

/// The lines held before `calls` and appended by them, from the last clear
/// among them on.
pub open spec fn since_clear(held: Seq<Seq<char>>, calls: Seq<LogCall>) -> Seq<Seq<char>>
    decreases calls.len(),
{
    if calls.len() == 0 {
        held
    } else {
        match calls.last() {
            LogCall::Push(l) => since_clear(held, calls.drop_last()).push(l),
            LogCall::Clear => seq![],
        }
    }
}

/// A bounded line buffer, optionally backed by a file.
#[derive(Debug, Default)]
pub struct LogBuffer {
    lines: VecDeque<String>,
    version: u64,
    file: Option<PathBuf>,
    unchecked: u64,
}

/// The text of each string.
pub open spec fn texts(v: Seq<String>) -> Seq<Seq<char>> {
    v.map_values(|s: String| s@)
}

impl View for LogBuffer {
    type V = LogView;

    closed spec fn view(&self) -> LogView {
        LogView { lines: texts(self.lines@), version: self.version, file: self.file, unchecked: self.unchecked }
    }
}

/// Append the characters of `s` and a newline.
fn push_line(s: &String, out: &mut Vec<char>)
    ensures
        final(out)@ == old(out)@ + s@ + seq!['\n'],
{
    let c = chars_of(s.as_str());
    let mut i: usize = 0;
    let ghost start = out@;
    while i < c.len()
        invariant
            i <= c@.len(),
            out@ == start + c@.take(i as int),
        decreases c.len() - i,
    {
        out.push(c[i]);
        i = i + 1;
        assert(out@ =~= start + c@.take(i as int));
    }
    assert(c@.take(c@.len() as int) =~= c@);
    out.push('\n');
}

/// The lines `from..` of `lines`, each followed by a newline.
fn join_from(lines: &VecDeque<String>, from: usize) -> (r: String)
    requires
        from <= lines@.len(),
    ensures
        r@ == joined(texts(lines@).skip(from as int)),
{
    let mut out: Vec<char> = Vec::new();
    let mut i = from;
    assert(texts(lines@).skip(from as int).take(0) =~= Seq::<Seq<char>>::empty());
    while i < lines.len()
        invariant
            from <= i <= lines@.len(),
            out@ == joined(texts(lines@).skip(from as int).take(i - from)),
        decreases lines.len() - i,
    {
        let ghost t = texts(lines@).skip(from as int);
        push_line(&lines[i], &mut out);
        assert(t.take(i + 1 - from).drop_last() =~= t.take(i - from));
        assert(t.take(i + 1 - from).last() == lines@[i as int]@);
        i = i + 1;
    }
    assert(texts(lines@).skip(from as int).take(lines@.len() - from) =~= texts(lines@).skip(from as int));
    string_of(out)
}

impl LogBuffer {
    pub fn new() -> (b: LogBuffer)
        ensures
            b@.lines == Seq::<Seq<char>>::empty(),
            b@.version == 0,
            b@.file is None,
            b@.unchecked == 0,
    {
        let b = LogBuffer { lines: VecDeque::new(), version: 0, file: None, unchecked: 0 };
        assert(texts(b.lines@) =~= Seq::<Seq<char>>::empty());
        b
    }

    /// Take up history from a previous run's log file `text`, and append to
    /// `path` from now on. The last `CAPACITY` lines of the file are added
    /// and the version counts the lines held, so a reader that starts at 0
    /// gets the restored history as its first splice.
    pub fn restore(&mut self, text: &str, path: PathBuf)
        requires
            old(self)@.lines.len() + CAPACITY <= u64::MAX,
        ensures
            final(self)@.lines == old(self)@.lines + {
                let all = lines_of(text@);
                if all.len() > CAPACITY { all.skip(all.len() - CAPACITY) } else { all }
            },
            final(self)@.version == final(self)@.lines.len(),
            final(self)@.unchecked == FILE_LIMIT,
            final(self)@.file == Some(path),
    {
        let all = text_lines(text);
        let from: usize = if all.len() > CAPACITY { all.len() - CAPACITY } else { 0 };
        let ghost tail = texts(all@).skip(from as int);
        let ghost start = texts(self.lines@);
        let mut i = from;
        while i < all.len()
            invariant
                from <= i <= all@.len(),
                tail == texts(all@).skip(from as int),
                texts(self.lines@) == start + tail.take(i - from),
            decreases all.len() - i,
        {
            let ghost old_lines = self.lines@;
            self.lines.push_back(all[i].clone());
            assert(texts(self.lines@) =~= texts(old_lines).push(all@[i as int]@));
            assert(tail.take(i + 1 - from) =~= tail.take(i - from).push(all@[i as int]@));
            i = i + 1;
            assert(texts(self.lines@) =~= start + tail.take(i - from));
        }
        assert(tail.take(all@.len() - from) =~= tail);
        self.version = self.lines.len() as u64;
        self.unchecked = FILE_LIMIT;
        self.file = Some(path);
        assert(texts(self.lines@).len() == self.lines@.len());
    }

    /// The file lines are appended to, if any.
    pub fn file(&self) -> (r: Option<PathBuf>)
        ensures
            r == self@.file,
    {
        match &self.file {
            Some(p) => Some(copy_path(p)),
            None => None,
        }
    }

    /// Record that `line_len` bytes and a newline are about to be appended
    /// to the file: the file and whether its size is due for a check (every
    /// 64 KiB), or `None` when there is no file.
    pub fn plan_append(&mut self, line_len: usize) -> (r: Option<(PathBuf, bool)>)
        ensures
            final(self)@.lines == old(self)@.lines,
            final(self)@.version == old(self)@.version,
            final(self)@.file == old(self)@.file,
            match old(self)@.file {
                None => r is None && final(self)@.unchecked == old(self)@.unchecked,
                Some(p) => {
                    let n = old(self)@.unchecked + line_len + 1;
                    let n = if n > u64::MAX { u64::MAX as int } else { n };
                    &&& r == Some((p, n >= CHECK_EVERY))
                    &&& final(self)@.unchecked == (if n >= CHECK_EVERY { 0 } else { n })
                },
            },
    {
        match &self.file {
            None => None,
            Some(p) => {
                let add: u64 = (line_len as u64).saturating_add(1);
                let n = self.unchecked.saturating_add(add);
                let due = n >= CHECK_EVERY;
                self.unchecked = if due { 0 } else { n };
                Some((copy_path(p), due))
            },
        }
    }

    /// Stop writing to the file (after a write failed).
    pub fn forget_file(&mut self)
        ensures
            final(self)@ == (LogView { file: None, ..old(self)@ }),
    {
        self.file = None;
    }

    /// Append a line, dropping the oldest when the buffer is full.
    pub fn push(&mut self, line: String)
        requires
            old(self)@.version < u64::MAX,
        ensures
            final(self)@ == pushed(old(self)@, line@),
    {
        let ghost before = texts(self.lines@);
        if self.lines.len() == CAPACITY {
            self.lines.pop_front();
            assert(texts(self.lines@) =~= before.drop_first());
        }
        let ghost mid = texts(self.lines@);
        self.lines.push_back(line);
        assert(texts(self.lines@) =~= mid.push(line@));
        self.version = self.version + 1;
    }

    /// The whole buffer as text, with the version it was taken at.
    pub fn snapshot(&self) -> (r: (u64, String))
        ensures
            r.0 == self@.version,
            r.1@ == joined(self@.lines),
    {
        let text = join_from(&self.lines, 0);
        assert(texts(self.lines@).skip(0) =~= texts(self.lines@));
        (self.version, text)
    }

    /// The lines appended since `version`, so the tab can splice rather than
    /// rebuild. `None` means more lines were dropped than are still held,
    /// i.e. the caller fell too far behind: take a `snapshot`.
    pub fn appended_since(&self, version: u64) -> (r: Option<(u64, String)>)
        ensures
            match r {
                None => appended_view(self@, version) is None,
                Some((v, text)) => appended_view(self@, version) == Some((v, text@)),
            },
    {
        let new: u64 = self.version.saturating_sub(version);
        if new > self.lines.len() as u64 {
            return None;
        }
        let from = self.lines.len() - new as usize;
        Some((self.version, join_from(&self.lines, from)))
    }

    /// How many lines the buffer holds.
    pub fn line_count(&self) -> (r: usize)
        ensures
            r == self@.lines.len(),
    {
        self.lines.len()
    }

    pub fn version(&self) -> (r: u64)
        ensures
            r == self@.version,
    {
        self.version
    }

    /// Empty the buffer. Clearing is the only thing that discards history,
    /// and it counts as a change, so readers resync.
    pub fn clear(&mut self)
        requires
            old(self)@.version < u64::MAX,
        ensures
            final(self)@ == cleared(old(self)@),
    {
        self.lines.clear();
        self.version = self.version + 1;
        self.unchecked = 0;
        assert(texts(self.lines@) =~= Seq::<Seq<char>>::empty());
    }
}

/// `str::lines`.
pub fn text_lines(text: &str) -> (r: Vec<String>)
    ensures
        texts(r@) == lines_of(text@),
{
    let c = chars_of(text);
    let mut out: Vec<String> = Vec::new();
    let mut i: usize = 0;
    assert(c@.skip(0) =~= c@);
    assert(texts(out@) =~= Seq::<Seq<char>>::empty());
    while i < c.len()
        invariant
            i <= c@.len(),
            c@ == text@,
            lines_of(text@) == texts(out@) + lines_of(c@.skip(i as int)),
        decreases c.len() - i,
    {
        let ghost s = c@.skip(i as int);
        let nl = find_char(&c, i, c.len(), '\n');
        proof { lemma_find_first(s, '\n'); }
        assert(c@.subrange(i as int, c@.len() as int) =~= s);
        let ghost before = texts(out@);
        if nl == c.len() {
            out.push(string_of(sub_chars(&c, i, c.len())));
            assert(texts(out@) =~= before.push(s));
            assert(c@.skip(c@.len() as int) =~= Seq::<char>::empty());
            assert(lines_of(s) == seq![s]);
            i = c.len();
        } else {
            let mut e = nl;
            if e > i && c[e - 1] == '\r' {
                e = e - 1;
            }
            let line = sub_chars(&c, i, e);
            let ghost l0 = s.take(nl - i);
            assert(l0 =~= c@.subrange(i as int, nl as int));
            proof {
                if nl > i && c@[nl - 1] == '\r' {
                    assert(line@ =~= l0.drop_last());
                } else {
                    assert(line@ =~= l0);
                }
            }
            out.push(string_of(line));
            assert(texts(out@) =~= before.push(line@));
            assert(s.skip(nl - i + 1) =~= c@.skip(nl + 1));
            assert(lines_of(s) == seq![line@] + lines_of(c@.skip(nl + 1)));
            assert(before + lines_of(s) =~= before.push(line@) + lines_of(c@.skip(nl + 1)));
            i = nl + 1;
        }
    }
    assert(c@.skip(c@.len() as int) =~= Seq::<char>::empty());
    assert(texts(out@) + Seq::<Seq<char>>::empty() =~= texts(out@));
    out
}

/// The newer half of a log file's lines, each followed by a newline: what
/// the file is rewritten to once it outgrows `FILE_LIMIT`.
pub fn newer_half(text: &str) -> (r: String)
    ensures
        r@ == joined(lines_of(text@).skip((lines_of(text@).len() / 2) as int)),
{
    let all = text_lines(text);
    let from = all.len() / 2;
    let mut out: Vec<char> = Vec::new();
    let mut i = from;
    let ghost t = texts(all@).skip(from as int);
    assert(t.take(0) =~= Seq::<Seq<char>>::empty());
    while i < all.len()
        invariant
            from <= i <= all@.len(),
            t == texts(all@).skip(from as int),
            out@ == joined(t.take(i - from)),
        decreases all.len() - i,
    {
        push_line(&all[i], &mut out);
        assert(t.take(i + 1 - from).drop_last() =~= t.take(i - from));
        i = i + 1;
    }
    assert(t.take(all@.len() - from) =~= t);
    string_of(out)
}

/// The first newline in `b`, or `b.len()`.
pub open spec fn first_newline(b: Seq<u8>) -> nat
    decreases b.len(),
{
    if b.len() == 0 {
        0
    } else if b[0] == 0x0Au8 {
        0
    } else {
        1 + first_newline(b.drop_first())
    }
}

/// The complete lines in `b` (each with its newline), and what follows the
/// last newline.
pub open spec fn split_lines(b: Seq<u8>) -> (Seq<Seq<u8>>, Seq<u8>)
    decreases b.len(),
{
    let nl = first_newline(b);
    if nl >= b.len() {
        (seq![], b)
    } else {
        let (ls, rest) = split_lines(b.skip(nl + 1int));
        (seq![b.take(nl + 1int)] + ls, rest)
    }
}

/// The log line a raw line becomes: decoded, invalid UTF-8 replaced, and
/// trailing whitespace (the newline among it) removed.
pub open spec fn line_text(raw: Seq<u8>) -> Seq<char> {
    trim_end(utf8_lossy(raw))
}

/// The log lines raw lines become.
pub open spec fn line_texts(raws: Seq<Seq<u8>>) -> Seq<Seq<char>> {
    raws.map_values(|r: Seq<u8>| line_text(r))
}

proof fn lemma_first_newline(b: Seq<u8>)
    ensures
        first_newline(b) <= b.len(),
        forall|i: int| 0 <= i < first_newline(b) ==> b[i] != 0x0Au8,
        first_newline(b) < b.len() ==> b[first_newline(b) as int] == 0x0Au8,
    decreases b.len(),
{
    if b.len() > 0 && b[0] != 0x0Au8 {
        lemma_first_newline(b.drop_first());
        assert forall|i: int| 0 <= i < first_newline(b) implies b[i] != 0x0Au8 by {
            if i > 0 {
                assert(b[i] == b.drop_first()[i - 1]);
            }
        }
    }
}

proof fn lemma_pushed_all_push(v: LogView, ls: Seq<Seq<char>>, l: Seq<char>)
    ensures
        pushed_all(v, ls.push(l)) == pushed(pushed_all(v, ls), l),
{
    assert(ls.push(l).drop_last() =~= ls);
}

proof fn lemma_pushed_all_version(v: LogView, ls: Seq<Seq<char>>)
    requires
        v.version + ls.len() <= u64::MAX,
    ensures
        pushed_all(v, ls).version == v.version + ls.len(),
    decreases ls.len(),
{
    if ls.len() > 0 {
        lemma_pushed_all_version(v, ls.drop_last());
    }
}

/// The writer end of the log formatter: splits what it writes into lines
/// and appends them to a buffer.
#[derive(Debug, Default)]
pub struct LogWriter {
    partial: Vec<u8>,
}

impl LogWriter {
    pub fn new() -> (w: LogWriter)
        ensures
            w.pending() == Seq::<u8>::empty(),
    {
        LogWriter { partial: Vec::new() }
    }

    /// Bytes written after the last complete line.
    pub closed spec fn pending(&self) -> Seq<u8> {
        self.partial@
    }

    /// How many bytes wait for their newline.
    pub fn pending_len(&self) -> (r: usize)
        ensures
            r == self.pending().len(),
    {
        self.partial.len()
    }

    /// Take `data`: every line it completes goes to `buf`, decoded and with
    /// trailing whitespace removed; a partial line waits for its newline.
    /// Returns how many bytes were taken: all of them.
    pub fn write(&mut self, buf: &mut LogBuffer, data: &[u8]) -> (r: usize)
        requires
            old(buf)@.version + old(self).pending().len() + data@.len() <= u64::MAX,
        ensures
            r == data@.len(),
            ({
                let (ls, rest) = split_lines(old(self).pending() + data@);
                &&& final(self).pending() == rest
                &&& final(buf)@ == pushed_all(old(buf)@, line_texts(ls))
                &&& forall|i: int| 0 <= i < ls.len() && valid_utf8(#[trigger] ls[i]) ==> line_text(ls[i]) == trim_end(decode_utf8(ls[i]))
            }),
    {
        let ghost all = self.partial@ + data@;
        let ghost v0 = buf@;
        let mut i: usize = 0;
        while i < data.len()
            invariant
                i <= data@.len(),
                self.partial@ == old(self).pending() + data@.take(i as int),
            decreases data@.len() - i,
        {
            self.partial.push(data[i]);
            i = i + 1;
            assert(self.partial@ =~= old(self).pending() + data@.take(i as int));
        }
        assert(data@.take(data@.len() as int) =~= data@);
        let ghost mut done: Seq<Seq<u8>> = seq![];
        assert(line_texts(done) =~= Seq::<Seq<char>>::empty());
        loop
            invariant
                split_lines(all) == ({
                    let (ls, rest) = split_lines(self.partial@);
                    (done + ls, rest)
                }),
                buf@ == pushed_all(v0, line_texts(done)),
                v0.version + all.len() <= u64::MAX,
                done.len() + self.partial@.len() <= all.len(),
                forall|i: int| 0 <= i < done.len() && valid_utf8(#[trigger] done[i]) ==> line_text(done[i]) == trim_end(decode_utf8(done[i])),
            ensures
                split_lines(all) == (done, self.partial@),
                buf@ == pushed_all(v0, line_texts(done)),
                forall|i: int| 0 <= i < done.len() && valid_utf8(#[trigger] done[i]) ==> line_text(done[i]) == trim_end(decode_utf8(done[i])),
            decreases self.partial@.len(),
        {
            let ghost p = self.partial@;
            proof { lemma_first_newline(p); }
            let mut nl: usize = 0;
            while nl < self.partial.len() && self.partial[nl] != 0x0Au8
                invariant
                    nl <= self.partial@.len(),
                    self.partial@ == p,
                    forall|j: int| 0 <= j < nl ==> p[j] != 0x0Au8,
                decreases self.partial@.len() - nl,
            {
                nl = nl + 1;
            }
            assert(nl == first_newline(p)) by {
                lemma_first_newline(p);
                if nl < first_newline(p) {
                    assert(p[nl as int] == 0x0Au8);
                } else if nl > first_newline(p) {
                    assert(p[first_newline(p) as int] == 0x0Au8);
                }
            }
            if nl >= self.partial.len() {
                assert(split_lines(p) == (Seq::<Seq<u8>>::empty(), p));
                assert(done + Seq::<Seq<u8>>::empty() =~= done);
                break;
            }
            let mut line: Vec<u8> = Vec::new();
            let mut rest: Vec<u8> = Vec::new();
            let mut j: usize = 0;
            while j < self.partial.len()
                invariant
                    j <= p.len(),
                    self.partial@ == p,
                    nl < p.len(),
                    line@ == p.take(if j <= nl + 1 { j as int } else { nl + 1 }),
                    rest@ == (if j <= nl + 1 { Seq::<u8>::empty() } else { p.subrange(nl + 1, j as int) }),
                decreases p.len() - j,
            {
                if j <= nl {
                    line.push(self.partial[j]);
                    assert(line@ =~= p.take(j + 1));
                } else {
                    rest.push(self.partial[j]);
                    assert(rest@ =~= p.subrange(nl + 1, j + 1));
                }
                j = j + 1;
            }
            assert(rest@ =~= p.skip(nl + 1));
            self.partial = rest;
            let text = string_from_utf8_lossy(line.as_slice());
            let tc = chars_of(text.as_str());
            let e = trim_end_index(&tc, 0, tc.len());
            assert(tc@.subrange(0, tc@.len() as int) =~= tc@);
            let trimmed = sub_chars(&tc, 0, e);
            assert(trimmed@ =~= line_text(p.take(nl + 1)));
            proof {
                lemma_pushed_all_version(v0, line_texts(done));
                assert(line_texts(done).len() == done.len());
            }
            buf.push(string_of(trimmed));
            proof {
                lemma_pushed_all_push(v0, line_texts(done), line_text(p.take(nl + 1)));
                assert(line_texts(done.push(p.take(nl + 1))) =~= line_texts(done).push(line_text(p.take(nl + 1))));
                let (ls2, rest2) = split_lines(p.skip(nl + 1));
                assert(done + (seq![p.take(nl + 1)] + ls2) =~= done.push(p.take(nl + 1)) + ls2);
                let old_done = done;
                done = done.push(p.take(nl + 1));
                assert forall|i: int| 0 <= i < done.len() && valid_utf8(#[trigger] done[i]) implies line_text(done[i]) == trim_end(decode_utf8(done[i])) by {
                    if i < old_done.len() {
                        assert(done[i] == old_done[i]);
                    } else {
                        assert(done[i] == line@);
                    }
                }
            }
        }
        data.len()
    }
}


/// The newest `CAPACITY` lines of `lines` (all of them when there are fewer).
pub open spec fn newest(lines: Seq<Seq<char>>) -> Seq<Seq<char>> {
    if lines.len() > CAPACITY {
        lines.skip(lines.len() - CAPACITY)
    } else {
        lines
    }
}

/// A buffer holding at most `CAPACITY` lines keeps the newest `CAPACITY`
/// of everything appended to it, and its version counts the appends.
pub proof fn lemma_keeps_newest(v: LogView, ls: Seq<Seq<char>>)
    requires
        v.lines.len() <= CAPACITY,
        v.version + ls.len() <= u64::MAX,
    ensures
        pushed_all(v, ls).lines == newest(v.lines + ls),
        pushed_all(v, ls).lines.len() <= CAPACITY,
        pushed_all(v, ls).version == v.version + ls.len(),
    decreases ls.len(),
{
    if ls.len() > 0 {
        let pre = ls.drop_last();
        lemma_keeps_newest(v, pre);
        let w = pushed_all(v, pre);
        let all = v.lines + ls;
        assert((v.lines + pre).push(ls.last()) =~= all);
        if w.lines.len() == CAPACITY {
            assert(w.lines.drop_first().push(ls.last()) =~= newest(all));
        } else {
            assert(w.lines.push(ls.last()) =~= newest(all));
        }
    } else {
        assert(v.lines + ls =~= v.lines);
    }
}

/// A reader at version `v.version` that asks for what was appended since
/// gets exactly the lines appended, unless more were appended than the
/// buffer holds, in which case it is told to take a snapshot.
pub proof fn lemma_appended_since_reads_appends(v: LogView, ls: Seq<Seq<char>>)
    requires
        v.lines.len() <= CAPACITY,
        v.version + ls.len() <= u64::MAX,
    ensures
        ({
            let w = pushed_all(v, ls);
            let new = w.version - v.version;
            &&& new == ls.len()
            &&& new <= w.lines.len() <==> ls.len() <= CAPACITY
            &&& ls.len() <= CAPACITY ==> w.lines.skip(w.lines.len() - new) == ls
        }),
{
    lemma_keeps_newest(v, ls);
    let w = pushed_all(v, ls);
    let all = v.lines + ls;
    if ls.len() <= CAPACITY {
        assert(w.lines.skip(w.lines.len() - ls.len()) =~= ls);
    }
}

/// Appending lines one batch after another is appending them all at once.
pub proof fn lemma_pushed_all_concat(v: LogView, a: Seq<Seq<char>>, b: Seq<Seq<char>>)
    ensures
        pushed_all(pushed_all(v, a), b) == pushed_all(v, a + b),
    decreases b.len(),
{
    if b.len() > 0 {
        lemma_pushed_all_concat(v, a, b.drop_last());
        assert((a + b).drop_last() =~= a + b.drop_last());
        assert((a + b).last() == b.last());
    } else {
        assert(a + b =~= a);
    }
}

/// Splitting what follows a prefix picks up where the prefix's split left
/// off.
pub proof fn lemma_split_lines_concat(a: Seq<u8>, b: Seq<u8>)
    ensures
        ({
            let (la, ra) = split_lines(a);
            let (lb, rb) = split_lines(ra + b);
            split_lines(a + b) == (la + lb, rb)
        }),
    decreases a.len(),
{
    lemma_first_newline(a);
    lemma_first_newline(a + b);
    let nl = first_newline(a);
    if nl < a.len() {
        assert(first_newline(a + b) == nl) by {
            if first_newline(a + b) < nl {
                assert((a + b)[first_newline(a + b) as int] == a[first_newline(a + b) as int]);
            } else if first_newline(a + b) > nl {
                assert((a + b)[nl as int] == a[nl as int]);
            }
        }
        assert((a + b).skip(nl + 1int) =~= a.skip(nl + 1int) + b);
        assert((a + b).take(nl + 1int) =~= a.take(nl + 1int));
        lemma_split_lines_concat(a.skip(nl + 1int), b);
        let (l1, r1) = split_lines(a.skip(nl + 1int));
        let (l2, r2) = split_lines(r1 + b);
        assert(seq![a.take(nl + 1int)] + (l1 + l2) =~= (seq![a.take(nl + 1int)] + l1) + l2);
    } else {
        assert(split_lines(a) == (Seq::<Seq<u8>>::empty(), a));
        let (lb, rb) = split_lines(a + b);
        assert(Seq::<Seq<u8>>::empty() + lb =~= lb);
    }
}

/// Two writes in a row append the same lines, and leave the same partial
/// line, as one write of both: how the formatter chunks its output does
/// not change the log.
pub proof fn lemma_writes_compose(pending: Seq<u8>, d1: Seq<u8>, d2: Seq<u8>, v: LogView)
    ensures
        ({
            let (l1, r1) = split_lines(pending + d1);
            let (l2, r2) = split_lines(r1 + d2);
            let (l, r) = split_lines(pending + (d1 + d2));
            &&& r2 == r
            &&& pushed_all(pushed_all(v, line_texts(l1)), line_texts(l2)) == pushed_all(v, line_texts(l))
        }),
{
    let (l1, r1) = split_lines(pending + d1);
    lemma_split_lines_concat(pending + d1, d2);
    assert(pending + (d1 + d2) =~= (pending + d1) + d2);
    let (l2, r2) = split_lines(r1 + d2);
    lemma_pushed_all_concat(v, line_texts(l1), line_texts(l2));
    assert(line_texts(l1 + l2) =~= line_texts(l1) + line_texts(l2));
}
/// A line as the log keeps it: no newline inside, and no carriage return
/// at its end (what `str::lines` would take off).
pub open spec fn plain_line(l: Seq<char>) -> bool {
    &&& forall|i: int| 0 <= i < l.len() ==> #[trigger] l[i] != '\n'
    &&& !(l.len() > 0 && l.last() == '\r')
}

/// `joined` seen from the front: the first line, a newline, the rest.
proof fn lemma_joined_front(ls: Seq<Seq<char>>)
    requires
        ls.len() > 0,
    ensures
        joined(ls) == ls[0] + seq!['\n'] + joined(ls.drop_first()),
    decreases ls.len(),
{
    if ls.len() == 1 {
        assert(ls.drop_last() =~= Seq::<Seq<char>>::empty());
        assert(ls.drop_first() =~= Seq::<Seq<char>>::empty());
        assert(joined(ls) =~= ls[0] + seq!['\n'] + joined(ls.drop_first()));
    } else {
        let init = ls.drop_last();
        lemma_joined_front(init);
        assert(init[0] == ls[0]);
        assert(init.drop_first() =~= ls.drop_first().drop_last());
        assert(ls.drop_first().last() == ls.last());
        assert(joined(ls) =~= ls[0] + seq!['\n'] + joined(ls.drop_first()));
    }
}

/// What a session writes to its log file, each line followed by a newline,
/// reads back line for line: splitting the file's text into lines gives the
/// lines written, for lines with no newline inside and no carriage return
/// at their end, which is how the log keeps them.
pub proof fn lemma_log_file_reads_back(ls: Seq<Seq<char>>)
    requires
        forall|i: int| 0 <= i < ls.len() ==> plain_line(#[trigger] ls[i]),
    ensures
        lines_of(joined(ls)) == ls,
    decreases ls.len(),
{
    if ls.len() > 0 {
        let l = ls[0];
        let rest = ls.drop_first();
        assert forall|i: int| 0 <= i < rest.len() implies plain_line(#[trigger] rest[i]) by {
            assert(rest[i] == ls[i + 1]);
        }
        lemma_log_file_reads_back(rest);
        lemma_joined_front(ls);
        let t = joined(ls);
        assert(plain_line(l));
        assert(t[l.len() as int] == '\n');
        assert forall|i: int| 0 <= i < l.len() implies #[trigger] t[i] != '\n' by {
            assert(t[i] == l[i]);
        }
        lemma_find_first(t, '\n');
        assert(find_first(t, '\n') == l.len()) by {
            let f = find_first(t, '\n') as int;
            if f < l.len() {
                assert(t[f] == l[f]);
            }
        }
        assert(t.take(l.len() as int) =~= l);
        assert(t.skip(l.len() + 1int) =~= joined(rest));
        assert(lines_of(t) =~= seq![l] + rest);
        assert(seq![l] + rest =~= ls);
    } else {
        assert(joined(ls) =~= Seq::<char>::empty());
    }
}


/// `t` with its first `d` lines, each ended by a newline, removed.
pub open spec fn drop_lines(t: Seq<char>, d: nat) -> Seq<char>
    decreases d,
{
    if d == 0 {
        t
    } else {
        let nl = find_first(t, '\n');
        if nl >= t.len() {
            seq![]
        } else {
            drop_lines(t.skip(nl + 1int), (d - 1) as nat)
        }
    }
}

/// How many of the `held` lines a full buffer drops while `appended` more
/// come in.
pub open spec fn dropped_count(held: nat, appended: nat) -> nat {
    if held + appended > CAPACITY { (held + appended - CAPACITY) as nat } else { 0 }
}

/// The text of lines one batch after another is the text of the one and
/// then of the other.
proof fn lemma_joined_concat(a: Seq<Seq<char>>, b: Seq<Seq<char>>)
    ensures
        joined(a + b) == joined(a) + joined(b),
    decreases b.len(),
{
    if b.len() == 0 {
        assert(a + b =~= a);
        assert(joined(a) + joined(b) =~= joined(a));
    } else {
        lemma_joined_concat(a, b.drop_last());
        assert((a + b).drop_last() =~= a + b.drop_last());
        assert((a + b).last() == b.last());
        assert(joined(a + b) =~= joined(a) + joined(b));
    }
}

/// Removing the first `d` lines of a text that begins with the lines `ls`
/// leaves the rest of those lines and what follows them.
proof fn lemma_drop_joined(ls: Seq<Seq<char>>, x: Seq<char>, d: nat)
    requires
        d <= ls.len(),
        forall|i: int| 0 <= i < d ==> !(#[trigger] ls[i]).contains('\n'),
    ensures
        drop_lines(joined(ls) + x, d) == joined(ls.skip(d as int)) + x,
    decreases d,
{
    if d == 0 {
        assert(ls.skip(0) =~= ls);
    } else {
        let l = ls[0];
        let rest = ls.drop_first();
        lemma_joined_front(ls);
        let t = joined(ls) + x;
        assert(t =~= l + seq!['\n'] + (joined(rest) + x));
        assert(!l.contains('\n'));
        assert(t[l.len() as int] == '\n');
        assert forall|i: int| 0 <= i < l.len() implies #[trigger] t[i] != '\n' by {
            assert(t[i] == l[i]);
            if l[i] == '\n' {
                assert(l.contains('\n'));
            }
        }
        lemma_find_first(t, '\n');
        assert(find_first(t, '\n') == l.len()) by {
            let f = find_first(t, '\n') as int;
            if f < l.len() {
                assert(t[f] != '\n');
            }
        }
        assert(t.skip(l.len() + 1int) =~= joined(rest) + x);
        assert forall|i: int| 0 <= i < d - 1 implies !(#[trigger] rest[i]).contains('\n') by {
            assert(rest[i] == ls[i + 1]);
        }
        lemma_drop_joined(rest, x, (d - 1) as nat);
        assert(rest.skip(d - 1) =~= ls.skip(d as int));
    }
}

/// A reader that took a snapshot of the buffer, at its version, and then
/// splices on the text `appended_since` that version gives it after more
/// lines came in (it gives one when no more came in than the buffer holds)
/// has exactly a fresh snapshot: the old text and the new one, with the
/// first lines the buffer dropped meanwhile removed; while the buffer has
/// room nothing is removed. The lines dropped must be lines: without a
/// newline inside.
pub proof fn lemma_splice_is_snapshot(v: LogView, ls: Seq<Seq<char>>)
    requires
        v.lines.len() <= CAPACITY,
        v.version + ls.len() <= u64::MAX,
        forall|i: int| 0 <= i < dropped_count(v.lines.len(), ls.len()) ==> !(#[trigger] v.lines[i]).contains('\n'),
    ensures
        ({
            let w = pushed_all(v, ls);
            appended_view(w, v.version) matches Some((v1, t1)) ==> {
                &&& v1 == w.version
                &&& joined(w.lines) == drop_lines(joined(v.lines) + t1, dropped_count(v.lines.len(), ls.len()))
            }
        }),
{
    lemma_appended_since_reads_appends(v, ls);
    lemma_keeps_newest(v, ls);
    let w = pushed_all(v, ls);
    let d = dropped_count(v.lines.len(), ls.len());
    if appended_view(w, v.version) is Some {
        assert(ls.len() <= CAPACITY);
        assert(w.lines.skip(w.lines.len() - (w.version - v.version)) == ls);
        assert(w.lines =~= v.lines.skip(d as int) + ls);
        lemma_joined_concat(v.lines.skip(d as int), ls);
        lemma_drop_joined(v.lines, joined(ls), d);
    }
}

/// The newest `CAPACITY` lines after one more: those before it, less the
/// oldest when they are `CAPACITY` already, then it.
proof fn lemma_newest_push(lines: Seq<Seq<char>>, l: Seq<char>)
    ensures
        newest(lines).len() <= CAPACITY,
        (if newest(lines).len() == CAPACITY { newest(lines).drop_first() } else { newest(lines) }).push(l) == newest(lines.push(l)),
{
    let all = lines.push(l);
    if lines.len() >= CAPACITY {
        assert(newest(lines).drop_first().push(l) =~= newest(all));
    } else {
        assert(lines.push(l) =~= newest(all));
    }
}

/// A buffer reached by appends and clears holds the newest `CAPACITY`
/// lines appended since the last clear (with those it held before, when
/// there was none), oldest first, and its version counts the calls. Its
/// snapshot is their text, each line followed by a newline.
pub proof fn lemma_holds_newest_since_clear(v: LogView, calls: Seq<LogCall>)
    requires
        v.lines.len() <= CAPACITY,
        v.version + calls.len() <= u64::MAX,
    ensures
        after_calls(v, calls).lines == newest(since_clear(v.lines, calls)),
        after_calls(v, calls).version == v.version + calls.len(),
        joined(after_calls(v, calls).lines) == joined(newest(since_clear(v.lines, calls))),
    decreases calls.len(),
{
    if calls.len() > 0 {
        let pre = calls.drop_last();
        lemma_holds_newest_since_clear(v, pre);
        match calls.last() {
            LogCall::Push(l) => {
                lemma_newest_push(since_clear(v.lines, pre), l);
            },
            LogCall::Clear => {
                assert(newest(Seq::<Seq<char>>::empty()) =~= Seq::<Seq<char>>::empty());
            },
        }
    } else {
        assert(newest(v.lines) == v.lines);
    }
}

/// A clear empties the snapshot and forces every reader from before it to
/// rebuild: right after it the buffer's text is empty, one version on, and
/// however many lines come in afterwards, `appended_since` any version up
/// to the one before the clear gives `None`.
pub proof fn lemma_clear_forces_rebuild(v: LogView, ls: Seq<Seq<char>>, since: u64)
    requires
        v.version + 1 + ls.len() <= u64::MAX,
        since <= v.version,
    ensures
        joined(cleared(v).lines) == Seq::<char>::empty(),
        cleared(v).version == v.version + 1,
        appended_view(pushed_all(cleared(v), ls), since) is None,
{
    let c = cleared(v);
    lemma_keeps_newest(c, ls);
    assert(c.lines + ls =~= ls);
    assert(newest(ls).len() <= ls.len());
}
} // verus!
