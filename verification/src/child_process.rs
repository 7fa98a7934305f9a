//! Running a child process whose output is passed on line by line.
//!
//! Bytes are put together into lines before they are decoded, so that a
//! character cut in two by a read is still decoded whole. A child that shows
//! no sign of life (no output, no input or output of any process it started,
//! no processor time) is stopped.
use vstd::prelude::*;

use crate::reader::decode_output_line;
use crate::reader;
use crate::text::{char_count, owned, push_text, trim};
use crate::text;

verus! {

/// The longest line; a longer one is cut.
pub const MAX_LINE_BYTES: usize = 64 * 1024;

/// A line as text, and whether it was written over by what came next.
pub struct Shown {
    pub text: Seq<char>,
    pub overwritten: bool,
}

/// The lines that a vector holds.
pub open spec fn shown_lines(v: Seq<(String, bool)>) -> Seq<Shown> {
    Seq::new(v.len(), |i: int| Shown { text: v[i].0@, overwritten: v[i].1 })
}

/// Behind the byte that ends an escape sequence whose parameters begin at `i`,
/// or the end.
pub open spec fn csi_end(b: Seq<u8>, i: int) -> int
    decreases b.len() - i,
    when 0 <= i <= b.len()
{
    if i == b.len() {
        i
    } else if 0x40 <= b[i] <= 0x7E {
        i + 1
    } else {
        csi_end(b, i + 1)
    }
}

proof fn lemma_csi_end(b: Seq<u8>, i: int)
    requires
        0 <= i <= b.len(),
    ensures
        i <= csi_end(b, i) <= b.len(),
        i < b.len() ==> i < csi_end(b, i),
    decreases b.len() - i,
{
    if i < b.len() && !(0x40 <= b[i] <= 0x7E) {
        lemma_csi_end(b, i + 1);
    }
}

/// Where reading goes on behind the escape character at `i`: behind the whole
/// sequence that a bracket begins, or behind one character.
pub open spec fn escape_end(b: Seq<u8>, i: int) -> int {
    if i + 1 == b.len() {
        i + 1
    } else if b[i + 1] == 0x5B {
        csi_end(b, i + 2)
    } else {
        i + 2
    }
}

/// The escape character at `i` begins a sequence that moves the cursor up.
pub open spec fn moves_up(b: Seq<u8>, i: int) -> bool {
    &&& i + 2 < b.len()
    &&& b[i + 1] == 0x5B
    &&& b[csi_end(b, i + 2) - 1] == 0x41
}

/// The bytes from position `i` on without escape sequences.
pub open spec fn plain_bytes(b: Seq<u8>, i: int) -> Seq<u8>
    decreases b.len() - i,
    when 0 <= i <= b.len()
    via plain_bytes_terminates
{
    if i == b.len() {
        Seq::empty()
    } else if b[i] != 0x1B {
        seq![b[i]] + plain_bytes(b, i + 1)
    } else {
        plain_bytes(b, escape_end(b, i))
    }
}

#[via_fn]
proof fn plain_bytes_terminates(b: Seq<u8>, i: int) {
    if i + 2 <= b.len() {
        lemma_csi_end(b, i + 2);
    }
}

/// Some escape sequence from position `i` on moves the cursor up.
pub open spec fn has_move_up(b: Seq<u8>, i: int) -> bool
    decreases b.len() - i,
    when 0 <= i <= b.len()
    via has_move_up_terminates
{
    if i == b.len() {
        false
    } else if b[i] != 0x1B {
        has_move_up(b, i + 1)
    } else {
        moves_up(b, i) || has_move_up(b, escape_end(b, i))
    }
}

#[via_fn]
proof fn has_move_up_terminates(b: Seq<u8>, i: int) {
    if i + 2 <= b.len() {
        lemma_csi_end(b, i + 2);
    }
}

/// Drops the escape sequences from a line, and says whether one of them moved
/// the cursor up.
pub fn strip_ansi(bytes: &Vec<u8>) -> (r: (Vec<u8>, bool))
    ensures
        r.0@ == plain_bytes(bytes@, 0),
        r.1 == has_move_up(bytes@, 0),
{
    let mut out: Vec<u8> = Vec::new();
    let mut moved_up = false;
    let mut i: usize = 0;
    assert(out@ + plain_bytes(bytes@, 0) =~= plain_bytes(bytes@, 0));
    while i < bytes.len()
        invariant
            i <= bytes@.len(),
            out@ + plain_bytes(bytes@, i as int) == plain_bytes(bytes@, 0),
            (moved_up || has_move_up(bytes@, i as int)) == has_move_up(bytes@, 0),
        decreases bytes@.len() - i,
    {
        let ghost prior = out@;
        if bytes[i] != 0x1B {
            out.push(bytes[i]);
            assert(out@ + plain_bytes(bytes@, i + 1) =~= prior + plain_bytes(bytes@, i as int));
            i += 1;
        } else if i + 1 == bytes.len() {
            i += 1;
        } else if bytes[i + 1] != 0x5B {
            i += 2;
        } else {
            proof {
                lemma_csi_end(bytes@, i + 2);
            }
            let start: usize = i + 2;
            let mut j: usize = start;
            let mut done = false;
            let mut up = false;
            while j < bytes.len() && !done
                invariant
                    start <= j <= bytes@.len(),
                    !done ==> csi_end(bytes@, start as int) == csi_end(bytes@, j as int),
                    !done ==> !up,
                    done ==> j > start && csi_end(bytes@, start as int) == j && 0x40
                        <= bytes@[j - 1] <= 0x7E && up == (bytes@[j - 1] == 0x41),
                    !done ==> forall|k: int|
                        start <= k < j ==> !(0x40 <= #[trigger] bytes@[k] <= 0x7E),
                decreases bytes@.len() - j + (if done {
                    0int
                } else {
                    1int
                }),
            {
                let b: u8 = bytes[j];
                j += 1;
                if 0x40 <= b && b <= 0x7E {
                    up = b == 0x41;
                    done = true;
                }
            }
            assert(j as int == escape_end(bytes@, i as int));
            assert(up == moves_up(bytes@, i as int));
            moved_up = moved_up || up;
            i = j;
        }
    }
    assert(out@ + Seq::<u8>::empty() =~= out@);
    (out, moved_up)
}

proof fn lemma_plain_bytes(b: Seq<u8>, i: int)
    requires
        0 <= i <= b.len(),
    ensures
        plain_bytes(b, i).len() <= b.len() - i,
        forall|k: int| 0 <= k < plain_bytes(b, i).len() ==> #[trigger] plain_bytes(b, i)[k] != 0x1B,
        (forall|k: int| i <= k < b.len() ==> b[k] != 0x1B) ==> plain_bytes(b, i) == b.skip(i)
            && !has_move_up(b, i),
    decreases b.len() - i,
{
    if i == b.len() {
        assert(b.skip(i) =~= Seq::<u8>::empty());
    } else if b[i] != 0x1B {
        lemma_plain_bytes(b, i + 1);
        let all = plain_bytes(b, i);
        assert forall|k: int| 0 <= k < all.len() implies #[trigger] all[k] != 0x1B by {
            if k > 0 {
                assert(all[k] == plain_bytes(b, i + 1)[k - 1]);
            }
        }
        assert(b.skip(i) =~= seq![b[i]] + b.skip(i + 1));
    } else {
        if i + 2 <= b.len() {
            lemma_csi_end(b, i + 2);
        }
        lemma_plain_bytes(b, escape_end(b, i));
    }
}

/// No escape character is left in a line, and a line without one is unchanged.
pub proof fn escapes_are_dropped(b: Seq<u8>)
    ensures
        forall|k: int| 0 <= k < plain_bytes(b, 0).len() ==> #[trigger] plain_bytes(b, 0)[k] != 0x1B,
        !b.contains(0x1B) ==> plain_bytes(b, 0) == b && !has_move_up(b, 0),
{
    lemma_plain_bytes(b, 0);
    assert(b.skip(0) =~= b);
    if !b.contains(0x1B) {
        assert(forall|k: int| 0 <= k < b.len() ==> b[k] != 0x1B);
    }
}

/// The text of a line's bytes: without escape sequences, decoded, without
/// white space at its ends.
pub open spec fn line_text(b: Seq<u8>) -> Seq<char> {
    let clean = plain_bytes(b, 0);
    text::trimmed(
        reader::line_decoding(reader::utf8_decoding(clean), reader::shift_jis_decoding(clean)),
    )
}

/// What is passed on of a line: nothing where it is empty or blank.
pub open spec fn shown(b: Seq<u8>, overwritten: bool) -> Seq<Shown> {
    if b.len() == 0 || line_text(b).len() == 0 {
        Seq::empty()
    } else {
        seq![Shown { text: line_text(b), overwritten: overwritten || has_move_up(b, 0) }]
    }
}

/// What is known of the output so far: the bytes of the line in progress, and
/// whether a carriage return came right behind them.
#[verifier::ext_equal]
pub struct Assembly {
    pub buf: Seq<u8>,
    pub cr: bool,
}

/// The state after one byte. A newline ends the line, with or without a
/// carriage return before it; a line that has reached the limit is ended too;
/// a carriage return ends the line once the next byte is no newline.
pub open spec fn after_byte(s: Assembly, b: u8) -> Assembly {
    let kept = if s.cr {
        Seq::empty()
    } else {
        s.buf
    };
    if b == 0x0A {
        Assembly { buf: Seq::empty(), cr: false }
    } else if b == 0x0D {
        Assembly { buf: kept, cr: true }
    } else if kept.len() + 1 >= MAX_LINE_BYTES {
        Assembly { buf: Seq::empty(), cr: false }
    } else {
        Assembly { buf: kept.push(b), cr: false }
    }
}

/// The lines that one byte ends. A line that a carriage return ended, with no
/// newline behind it, was written over.
pub open spec fn ended_by(s: Assembly, b: u8) -> Seq<Shown> {
    let overwritten = if s.cr && b != 0x0A {
        shown(s.buf, true)
    } else {
        Seq::empty()
    };
    let kept = if s.cr {
        Seq::empty()
    } else {
        s.buf
    };
    if b == 0x0A {
        shown(s.buf, false)
    } else if b != 0x0D && kept.len() + 1 >= MAX_LINE_BYTES {
        overwritten + shown(kept.push(b), false)
    } else {
        overwritten
    }
}

/// The state after the first `n` bytes.
pub open spec fn after_bytes(s: Assembly, b: Seq<u8>, n: int) -> Assembly
    decreases n,
{
    if n <= 0 {
        s
    } else {
        after_byte(after_bytes(s, b, n - 1), b[n - 1])
    }
}

/// The lines that the first `n` bytes end.
pub open spec fn lines_ended(s: Assembly, b: Seq<u8>, n: int) -> Seq<Shown>
    decreases n,
{
    if n <= 0 {
        Seq::empty()
    } else {
        lines_ended(s, b, n - 1) + ended_by(after_bytes(s, b, n - 1), b[n - 1])
    }
}

proof fn lemma_bytes_split(s: Assembly, a: Seq<u8>, b: Seq<u8>, n: int)
    requires
        0 <= n <= b.len(),
    ensures
        after_bytes(s, a + b, a.len() + n) == after_bytes(after_bytes(s, a, a.len() as int), b, n),
        lines_ended(s, a + b, a.len() + n) == lines_ended(s, a, a.len() as int) + lines_ended(
            after_bytes(s, a, a.len() as int),
            b,
            n,
        ),
    decreases n,
{
    if n > 0 {
        lemma_bytes_split(s, a, b, n - 1);
        assert((a + b)[a.len() + n - 1] == b[n - 1]);
        let m = after_bytes(s, a, a.len() as int);
        let l = lines_ended(s, a, a.len() as int);
        assert(l + lines_ended(m, b, n - 1) + ended_by(after_bytes(m, b, n - 1), b[n - 1]) =~= l + (
        lines_ended(m, b, n - 1) + ended_by(after_bytes(m, b, n - 1), b[n - 1])));
    } else {
        lemma_bytes_prefix(s, a, b, a.len() as int);
        assert(lines_ended(s, a, a.len() as int) + Seq::<Shown>::empty() =~= lines_ended(
            s,
            a,
            a.len() as int,
        ));
    }
}

proof fn lemma_bytes_prefix(s: Assembly, a: Seq<u8>, b: Seq<u8>, n: int)
    requires
        0 <= n <= a.len(),
    ensures
        after_bytes(s, a + b, n) == after_bytes(s, a, n),
        lines_ended(s, a + b, n) == lines_ended(s, a, n),
    decreases n,
{
    if n > 0 {
        lemma_bytes_prefix(s, a, b, n - 1);
        assert((a + b)[n - 1] == a[n - 1]);
    }
}

/// It makes no difference where the reads cut the output: taking it in two
/// parts gives the same lines and the same state as taking it whole.
pub proof fn reads_may_be_cut_anywhere(s: Assembly, a: Seq<u8>, b: Seq<u8>)
    ensures
        after_bytes(s, a + b, (a + b).len() as int) == after_bytes(
            after_bytes(s, a, a.len() as int),
            b,
            b.len() as int,
        ),
        lines_ended(s, a + b, (a + b).len() as int) == lines_ended(s, a, a.len() as int)
            + lines_ended(after_bytes(s, a, a.len() as int), b, b.len() as int),
{
    lemma_bytes_split(s, a, b, b.len() as int);
}

/// Puts bytes together into lines.
pub struct LineAssembler {
    buf: Vec<u8>,
    cr: bool,
}

impl View for LineAssembler {
    type V = Assembly;

    closed spec fn view(&self) -> Assembly {
        Assembly { buf: self.buf@, cr: self.cr }
    }
}

impl LineAssembler {
    /// The line in progress is below the limit.
    pub open spec fn wf(self) -> bool {
        self@.buf.len() < MAX_LINE_BYTES
    }

    /// No output yet.
    pub fn new() -> (r: Self)
        ensures
            r.wf(),
            r@ == (Assembly { buf: Seq::empty(), cr: false }),
    {
        let r = LineAssembler { buf: Vec::new(), cr: false };
        assert(r@.buf =~= Seq::<u8>::empty());
        r
    }

    /// Ends the line in progress.
    fn flush(&mut self, overwritten: bool, out: &mut Vec<(String, bool)>)
        requires
            old(self)@.buf.len() <= MAX_LINE_BYTES,
        ensures
            final(self)@ == (Assembly { buf: Seq::empty(), cr: old(self)@.cr }),
            shown_lines(final(out)@) == shown_lines(old(out)@) + shown(
                old(self)@.buf,
                overwritten,
            ),
    {
        let ghost before = shown_lines(out@);
        if self.buf.len() > 0 {
            let (clean, moved_up) = strip_ansi(&self.buf);
            proof {
                lemma_plain_bytes(self.buf@, 0);
            }
            let line = trim(decode_output_line(&clean).as_str());
            if char_count(line.as_str()) > 0 {
                out.push((line, overwritten || moved_up));
                assert(shown_lines(out@) =~= before + shown(self.buf@, overwritten));
            }
            self.buf = Vec::new();
        }
        assert(self@.buf =~= Seq::<u8>::empty());
        assert(shown_lines(out@) =~= before + shown(old(self)@.buf, overwritten));
    }

    /// Takes one byte.
    fn push_byte(&mut self, b: u8, out: &mut Vec<(String, bool)>)
        requires
            old(self).wf(),
        ensures
            final(self).wf(),
            final(self)@ == after_byte(old(self)@, b),
            shown_lines(final(out)@) == shown_lines(old(out)@) + ended_by(old(self)@, b),
    {
        let ghost before = shown_lines(out@);
        if self.cr {
            self.cr = false;
            if b == 0x0A {
                self.flush(false, out);
                return;
            }
            self.flush(true, out);
        }
        if b == 0x0A {
            self.flush(false, out);
        } else if b == 0x0D {
            self.cr = true;
        } else {
            self.buf.push(b);
            if self.buf.len() >= MAX_LINE_BYTES {
                self.flush(false, out);
            }
        }
        assert(shown_lines(out@) =~= before + ended_by(old(self)@, b));
        assert(self@ =~= after_byte(old(self)@, b));
    }

    /// Takes the bytes of one read, and appends the lines that they end.
    pub fn push(&mut self, bytes: &Vec<u8>, out: &mut Vec<(String, bool)>)
        requires
            old(self).wf(),
        ensures
            final(self).wf(),
            final(self)@ == after_bytes(old(self)@, bytes@, bytes@.len() as int),
            shown_lines(final(out)@) == shown_lines(old(out)@) + lines_ended(
                old(self)@,
                bytes@,
                bytes@.len() as int,
            ),
    {
        let ghost before = shown_lines(out@);
        let ghost start = self@;
        let mut i: usize = 0;
        assert(before + lines_ended(start, bytes@, 0) =~= before);
        while i < bytes.len()
            invariant
                i <= bytes@.len(),
                self.wf(),
                self@ == after_bytes(start, bytes@, i as int),
                shown_lines(out@) == before + lines_ended(start, bytes@, i as int),
            decreases bytes@.len() - i,
        {
            let ghost prior = shown_lines(out@);
            let ghost here = self@;
            self.push_byte(bytes[i], out);
            i += 1;
            assert(shown_lines(out@) =~= before + lines_ended(start, bytes@, i as int));
        }
    }

    /// The output has ended: what is left is a line too.
    pub fn finish(&mut self, out: &mut Vec<(String, bool)>)
        requires
            old(self).wf(),
        ensures
            final(self).wf(),
            final(self)@ == (Assembly { buf: Seq::empty(), cr: false }),
            shown_lines(final(out)@) == shown_lines(old(out)@) + shown(old(self)@.buf, false),
    {
        self.cr = false;
        self.flush(false, out);
    }
}

/// Which output a line came from.
#[derive(Clone, Copy, Debug, PartialEq, Eq, Structural)]
pub enum Stream {
    Stdout,
    Stderr,
}

/// What a reader of one output reports: a line, or that bytes arrived which
/// end no line yet.
#[derive(Debug, PartialEq, Eq)]
pub enum Msg {
    Line { stream: Stream, text: String, overwritten: bool },
    Activity,
}

/// What a `Msg` says.
pub enum Report {
    Line { stream: Stream, line: Shown },
    Activity,
}

impl View for Msg {
    type V = Report;

    open spec fn view(&self) -> Report {
        match self {
            Msg::Line { stream, text, overwritten } => Report::Line {
                stream: *stream,
                line: Shown { text: text@, overwritten: *overwritten },
            },
            Msg::Activity => Report::Activity,
        }
    }
}

/// What a vector of reports says.
pub open spec fn reports(v: Seq<Msg>) -> Seq<Report> {
    Seq::new(v.len(), |i: int| v[i]@)
}

/// Lines as reports of one output.
pub open spec fn line_reports(stream: Stream, l: Seq<Shown>) -> Seq<Report> {
    Seq::new(l.len(), |i: int| Report::Line { stream, line: l[i] })
}

/// Lines as reports, or a sign of life where there are none.
pub open spec fn read_reports(stream: Stream, l: Seq<Shown>) -> Seq<Report> {
    if l.len() == 0 {
        seq![Report::Activity]
    } else {
        line_reports(stream, l)
    }
}

/// Reads one output of a child.
pub struct OutputReader {
    lines: LineAssembler,
    stream: Stream,
}

/// What an `OutputReader` knows.
pub struct Reading {
    pub lines: Assembly,
    pub stream: Stream,
}

impl View for OutputReader {
    type V = Reading;

    closed spec fn view(&self) -> Reading {
        Reading { lines: self.lines@, stream: self.stream }
    }
}

/// Turns lines into reports.
fn to_reports(stream: Stream, lines: &Vec<(String, bool)>) -> (r: Vec<Msg>)
    ensures
        reports(r@) == line_reports(stream, shown_lines(lines@)),
{
    let mut out: Vec<Msg> = Vec::new();
    let mut i: usize = 0;
    while i < lines.len()
        invariant
            i <= lines@.len(),
            out@.len() == i,
            forall|k: int|
                0 <= k < i ==> (#[trigger] out@[k])@ == line_reports(
                    stream,
                    shown_lines(lines@),
                )[k],
        decreases lines@.len() - i,
    {
        out.push(
            Msg::Line { stream, text: owned(lines[i].0.as_str()), overwritten: lines[i].1 },
        );
        i += 1;
    }
    assert(reports(out@) =~= line_reports(stream, shown_lines(lines@)));
    out
}

/// What is passed on where reading an output fails.
pub open spec fn broken_text(error: Seq<char>) -> Seq<char> {
    "(出力の読み取りが止まりました: "@ + error + ")"@
}

impl OutputReader {
    /// The line in progress is below the limit.
    pub closed spec fn wf(self) -> bool {
        self.lines.wf()
    }

    /// A reader that has read nothing.
    pub fn new(stream: Stream) -> (r: Self)
        ensures
            r.wf(),
            r@ == (Reading { lines: Assembly { buf: Seq::empty(), cr: false }, stream }),
    {
        OutputReader { lines: LineAssembler::new(), stream }
    }

    /// Bytes were read.
    pub fn on_bytes(&mut self, bytes: &Vec<u8>) -> (r: Vec<Msg>)
        requires
            old(self).wf(),
        ensures
            final(self).wf(),
            final(self)@ == (Reading {
                lines: after_bytes(old(self)@.lines, bytes@, bytes@.len() as int),
                ..old(self)@
            }),
            reports(r@) == read_reports(
                old(self)@.stream,
                lines_ended(old(self)@.lines, bytes@, bytes@.len() as int),
            ),
    {
        let mut ended: Vec<(String, bool)> = Vec::new();
        assert(shown_lines(ended@) =~= Seq::<Shown>::empty());
        self.lines.push(bytes, &mut ended);
        assert(shown_lines(ended@) =~= lines_ended(old(self)@.lines, bytes@, bytes@.len() as int));
        if ended.len() == 0 {
            let mut out: Vec<Msg> = Vec::new();
            out.push(Msg::Activity);
            assert(reports(out@) =~= seq![Report::Activity]);
            return out;
        }
        to_reports(self.stream, &ended)
    }

    /// The output has ended.
    pub fn on_end(&mut self) -> (r: Vec<Msg>)
        requires
            old(self).wf(),
        ensures
            final(self).wf(),
            final(self)@ == (Reading {
                lines: Assembly { buf: Seq::empty(), cr: false },
                ..old(self)@
            }),
            reports(r@) == line_reports(old(self)@.stream, shown(old(self)@.lines.buf, false)),
    {
        let mut ended: Vec<(String, bool)> = Vec::new();
        assert(shown_lines(ended@) =~= Seq::<Shown>::empty());
        self.lines.finish(&mut ended);
        assert(shown_lines(ended@) =~= shown(old(self)@.lines.buf, false));
        to_reports(self.stream, &ended)
    }

    /// Reading failed: that is passed on, and then what is left.
    pub fn on_failure(&mut self, error: &str) -> (r: Vec<Msg>)
        requires
            old(self).wf(),
        ensures
            final(self).wf(),
            final(self)@ == (Reading {
                lines: Assembly { buf: Seq::empty(), cr: false },
                ..old(self)@
            }),
            reports(r@) == line_reports(
                old(self)@.stream,
                seq![Shown { text: broken_text(error@), overwritten: false }] + shown(
                    old(self)@.lines.buf,
                    false,
                ),
            ),
    {
        let mut ended: Vec<(String, bool)> = Vec::new();
        let mut broken = owned("(出力の読み取りが止まりました: ");
        push_text(&mut broken, error);
        push_text(&mut broken, ")");
        ended.push((broken, false));
        assert(shown_lines(ended@) =~= seq![
            Shown { text: broken_text(error@), overwritten: false },
        ]);
        self.lines.finish(&mut ended);
        to_reports(self.stream, &ended)
    }
}

/// How often the signs of life are looked at, in nanoseconds.
pub const TICK: u64 = 250_000_000;

/// How long output is waited for after the child has ended or was stopped, in
/// nanoseconds.
pub const DRAIN_GRACE: u64 = 5_000_000_000;

/// What the child and everything that it started has done so far: its
/// processor time, and what it has read and written.
#[derive(Clone, Copy, Debug, PartialEq, Eq, Structural)]
pub struct Activity {
    pub cpu: i64,
    pub io: u64,
}

/// What has been read and written: how much, and how often.
#[derive(Clone, Copy, Debug, PartialEq, Eq, Structural)]
pub struct IoCounters {
    pub read_bytes: u64,
    pub write_bytes: u64,
    pub other_bytes: u64,
    pub reads: u64,
    pub writes: u64,
    pub others: u64,
}

/// All that was counted, as one number that starts anew where it is full.
pub open spec fn io_total(c: IoCounters) -> int {
    (c.read_bytes + c.write_bytes + c.other_bytes + c.reads + c.writes + c.others) % (u64::MAX + 1)
}

/// What the child has done so far, by the processor time that it took for
/// itself and in the system, and by what it has read and written.
pub fn activity(user: i64, kernel: i64, io: IoCounters) -> (r: Activity)
    requires
        i64::MIN <= user + kernel <= i64::MAX,
    ensures
        r.cpu == user + kernel,
        r.io == io_total(io),
{
    let sum = io.read_bytes.wrapping_add(io.write_bytes).wrapping_add(io.other_bytes).wrapping_add(
        io.reads,
    ).wrapping_add(io.writes).wrapping_add(io.others);
    Activity { cpu: user + kernel, io: sum }
}

/// A write is seen even where it takes no processor time: whatever was counted
/// before, one more write, of however many bytes, makes what the child has done
/// differ, unless the counters have gone all the way round.
pub proof fn writing_is_activity(before: IoCounters, more_bytes: u64, more_writes: u64)
    requires
        0 < more_bytes + more_writes <= u64::MAX,
        before.write_bytes + more_bytes <= u64::MAX,
        before.writes + more_writes <= u64::MAX,
    ensures
        io_total(before) != io_total(
            IoCounters {
                write_bytes: (before.write_bytes + more_bytes) as u64,
                writes: (before.writes + more_writes) as u64,
                ..before
            },
        ),
{
}

/// How a child ended.
#[derive(Clone, Copy, Debug, PartialEq, Eq, Structural)]
pub enum Ended {
    Exited,
    /// It showed no sign of life for too long and was stopped.
    Stalled,
    /// It did not end in time and was stopped.
    TimedOut,
}

/// What happened. Times are nanoseconds of a clock that is never set back.
#[derive(Clone, Copy, Debug, PartialEq, Eq, Structural)]
pub enum WatchEvent {
    /// An output reported something.
    Message { now: u64 },
    /// No output reported anything for one tick.
    Quiet,
    /// Both outputs are closed.
    Closed,
    /// One tick was slept.
    Slept,
    /// The child has ended.
    Exited,
    /// The child has not ended.
    StillRunning { now: u64 },
    /// What the child has done so far, as far as that can be told.
    Counted { now: u64, activity: Option<Activity> },
}

/// What is to be done next.
#[derive(Clone, Copy, Debug, PartialEq, Eq, Structural)]
pub enum WatchAction {
    /// Wait for an output, for one tick at most.
    Receive,
    /// Sleep for one tick.
    Sleep,
    /// See whether the child has ended.
    Poll,
    /// Count what the child has done so far.
    Count,
    /// Stop watching.
    Finish(Ended),
}

/// The watch over a running child.
#[derive(Clone, Copy, Debug, PartialEq, Eq, Structural)]
pub struct Watch {
    /// How long the child may show no sign of life; none where it cannot be
    /// told what it does, for then output alone would have to decide.
    pub stall_after: Option<u64>,
    /// How long the child may take.
    pub deadline: Option<u64>,
    pub started: u64,
    pub last_progress: u64,
    pub last_activity: Option<Activity>,
    pub last_check: u64,
    pub open: bool,
}

/// The time that has passed, none where the clock seems to run backwards.
pub open spec fn elapsed(since: u64, now: u64) -> int {
    if now >= since {
        now - since
    } else {
        0
    }
}

/// What the watch waits for.
pub open spec fn next_wait(w: Watch) -> WatchAction {
    if w.open {
        WatchAction::Receive
    } else {
        WatchAction::Sleep
    }
}

/// Whether the watch goes on.
pub open spec fn judged(w: Watch, now: u64) -> WatchAction {
    if w.deadline matches Some(d) && elapsed(w.started, now) >= d {
        WatchAction::Finish(Ended::TimedOut)
    } else if w.stall_after matches Some(limit) && elapsed(w.last_progress, now) >= limit {
        WatchAction::Finish(Ended::Stalled)
    } else {
        next_wait(w)
    }
}

/// The watch after an event.
pub open spec fn watch_after(w: Watch, e: WatchEvent) -> Watch {
    match e {
        WatchEvent::Message { now } => Watch { last_progress: now, ..w },
        WatchEvent::Closed => Watch { open: false, ..w },
        WatchEvent::Counted { now, activity } => if activity != w.last_activity {
            Watch { last_check: now, last_activity: activity, last_progress: now, ..w }
        } else {
            Watch { last_check: now, ..w }
        },
        _ => w,
    }
}

/// What is to be done after an event.
pub open spec fn watch_action(w: Watch, e: WatchEvent) -> WatchAction {
    match e {
        WatchEvent::Message { .. } => WatchAction::Poll,
        WatchEvent::Quiet => WatchAction::Poll,
        WatchEvent::Closed => WatchAction::Poll,
        WatchEvent::Slept => WatchAction::Poll,
        WatchEvent::Exited => WatchAction::Finish(Ended::Exited),
        WatchEvent::StillRunning { now } => if w.stall_after is Some && elapsed(w.last_check, now)
            >= TICK {
            WatchAction::Count
        } else {
            judged(w, now)
        },
        WatchEvent::Counted { now, .. } => judged(watch_after(w, e), now),
    }
}

impl Watch {
    /// The watch over a child that has just been started. Where it cannot be
    /// told what the child does, it is not stopped for showing no sign of life.
    pub fn new(
        now: u64,
        stall_after: Option<u64>,
        deadline: Option<u64>,
        countable: bool,
        activity: Option<Activity>,
    ) -> (r: Self)
        ensures
            r == (Watch {
                stall_after: (if countable {
                    stall_after
                } else {
                    None
                }),
                deadline,
                started: now,
                last_progress: now,
                last_activity: activity,
                last_check: now,
                open: true,
            }),
    {
        Watch {
            stall_after: if countable {
                stall_after
            } else {
                None
            },
            deadline,
            started: now,
            last_progress: now,
            last_activity: activity,
            last_check: now,
            open: true,
        }
    }

    /// What the watch begins with.
    pub fn first(&self) -> (r: WatchAction)
        ensures
            r == next_wait(*self),
    {
        if self.open {
            WatchAction::Receive
        } else {
            WatchAction::Sleep
        }
    }

    /// Whether the watch goes on.
    fn judge(&self, now: u64) -> (r: WatchAction)
        ensures
            r == judged(*self, now),
    {
        match self.deadline {
            Some(d) => {
                if now.saturating_sub(self.started) >= d {
                    return WatchAction::Finish(Ended::TimedOut);
                }
            },
            None => {},
        }
        match self.stall_after {
            Some(limit) => {
                if now.saturating_sub(self.last_progress) >= limit {
                    return WatchAction::Finish(Ended::Stalled);
                }
            },
            None => {},
        }
        self.first()
    }

    /// Takes what happened, and says what is to be done next.
    pub fn step(&mut self, event: WatchEvent) -> (r: WatchAction)
        ensures
            *final(self) == watch_after(*old(self), event),
            r == watch_action(*old(self), event),
    {
        match event {
            WatchEvent::Message { now } => {
                self.last_progress = now;
                WatchAction::Poll
            },
            WatchEvent::Quiet => WatchAction::Poll,
            WatchEvent::Closed => {
                self.open = false;
                WatchAction::Poll
            },
            WatchEvent::Slept => WatchAction::Poll,
            WatchEvent::Exited => WatchAction::Finish(Ended::Exited),
            WatchEvent::StillRunning { now } => {
                if self.stall_after.is_some() && now.saturating_sub(self.last_check) >= TICK {
                    WatchAction::Count
                } else {
                    self.judge(now)
                }
            },
            WatchEvent::Counted { now, activity } => {
                let same = match (activity, self.last_activity) {
                    (Some(a), Some(b)) => a == b,
                    (None, None) => true,
                    _ => false,
                };
                self.last_check = now;
                if !same {
                    self.last_activity = activity;
                    self.last_progress = now;
                }
                self.judge(now)
            },
        }
    }
}

/// How what is left of the child is ended.
#[derive(Clone, Copy, Debug, PartialEq, Eq, Structural)]
pub enum Cleanup {
    /// Everything that it started is stopped, whether or not it has ended.
    StopTree,
    /// The child alone is stopped.
    StopChild,
    Nothing,
}

/// How what is left of the child is ended, given whether all that it started
/// can be stopped together.
pub fn cleanup(has_job: bool, ended: Ended) -> (r: Cleanup)
    ensures
        r == (if has_job {
            Cleanup::StopTree
        } else if ended != Ended::Exited {
            Cleanup::StopChild
        } else {
            Cleanup::Nothing
        }),
{
    if has_job {
        return Cleanup::StopTree;
    }
    match ended {
        Ended::Exited => Cleanup::Nothing,
        _ => Cleanup::StopChild,
    }
}

/// The watch after the first `n` events.
pub open spec fn watch_run(w: Watch, e: Seq<WatchEvent>, n: int) -> Watch
    decreases n,
{
    if n <= 0 {
        w
    } else {
        watch_after(watch_run(w, e, n - 1), e[n - 1])
    }
}

/// The time of an event that has one.
pub open spec fn event_time(e: WatchEvent) -> Option<u64> {
    match e {
        WatchEvent::Message { now } => Some(now),
        WatchEvent::StillRunning { now } => Some(now),
        WatchEvent::Counted { now, .. } => Some(now),
        _ => None,
    }
}

/// The clock is never set back, and starts when the watch does.
pub open spec fn in_time_order(w: Watch, e: Seq<WatchEvent>) -> bool {
    &&& forall|i: int|
        0 <= i < e.len() && (#[trigger] event_time(e[i])) is Some ==> w.started <= event_time(e[i])->0
    &&& forall|i: int, j: int|
        0 <= i < j < e.len() && (#[trigger] event_time(e[i])) is Some && (#[trigger] event_time(
            e[j],
        )) is Some ==> event_time(e[i])->0 <= event_time(e[j])->0
}

/// A sign of life: an output reported something, or what the child has done
/// so far is not what it was.
pub open spec fn is_sign_of_life(w: Watch, e: WatchEvent) -> bool {
    match e {
        WatchEvent::Message { .. } => true,
        WatchEvent::Counted { activity, .. } => activity != w.last_activity,
        _ => false,
    }
}

proof fn lemma_signs_are_noted(w: Watch, e: Seq<WatchEvent>, n: int, k: int)
    requires
        0 <= k < n <= e.len(),
        in_time_order(w, e),
        is_sign_of_life(watch_run(w, e, k), e[k]),
    ensures
        watch_run(w, e, n).last_progress >= event_time(e[k])->0,
        watch_run(w, e, n).stall_after == w.stall_after,
    decreases n,
{
    lemma_watch_constants(w, e, n);
    assert(event_time(e[k]) is Some);
    if n - 1 > k {
        lemma_signs_are_noted(w, e, n - 1, k);
        if event_time(e[n - 1]) is Some {
            assert(event_time(e[k])->0 <= event_time(e[n - 1])->0);
        }
    }
}

proof fn lemma_watch_constants(w: Watch, e: Seq<WatchEvent>, n: int)
    ensures
        watch_run(w, e, n).stall_after == w.stall_after,
        watch_run(w, e, n).deadline == w.deadline,
        watch_run(w, e, n).started == w.started,
    decreases n,
{
    if n > 0 {
        lemma_watch_constants(w, e, n - 1);
    }
}

/// A child is stopped for showing no sign of life only where it can be told
/// what it does, and only if every sign of life so far is at least as old as
/// the limit.
pub proof fn stalled_only_without_signs_of_life(w: Watch, e: Seq<WatchEvent>, n: int, k: int)
    requires
        0 <= k < n < e.len(),
        in_time_order(w, e),
        watch_action(watch_run(w, e, n), e[n]) == WatchAction::Finish(Ended::Stalled),
        is_sign_of_life(watch_run(w, e, k), e[k]),
    ensures
        w.stall_after is Some,
        event_time(e[n])->0 - event_time(e[k])->0 >= w.stall_after->0,
{
    lemma_signs_are_noted(w, e, n, k);
    lemma_watch_constants(w, e, n);
    assert(event_time(e[k]) is Some && event_time(e[n]) is Some);
    assert(event_time(e[k])->0 <= event_time(e[n])->0);
}

/// A child that cannot be told about is never stopped for showing no sign of
/// life, whatever happens.
pub proof fn uncounted_child_never_stalls(w: Watch, e: Seq<WatchEvent>, n: int)
    requires
        w.stall_after is None,
        0 <= n < e.len(),
    ensures
        watch_action(watch_run(w, e, n), e[n]) != WatchAction::Finish(Ended::Stalled),
{
    lemma_watch_constants(w, e, n);
}

proof fn lemma_csi_shift(a: Seq<u8>, b: Seq<u8>, i: int)
    requires
        0 <= i <= b.len(),
    ensures
        csi_end(a + b, a.len() + i) == a.len() + csi_end(b, i),
        i <= csi_end(b, i) <= b.len(),
    decreases b.len() - i,
{
    if i < b.len() {
        assert((a + b)[a.len() + i] == b[i]);
        lemma_csi_shift(a, b, i + 1);
    }
}

proof fn lemma_plain_shift(a: Seq<u8>, b: Seq<u8>, i: int)
    requires
        0 <= i <= b.len(),
    ensures
        plain_bytes(a + b, a.len() + i) == plain_bytes(b, i),
        has_move_up(a + b, a.len() + i) == has_move_up(b, i),
    decreases b.len() - i,
{
    if i < b.len() {
        let ab = a + b;
        let n = a.len() as int;
        assert(ab[n + i] == b[i]);
        if b[i] != 0x1B {
            lemma_plain_shift(a, b, i + 1);
        } else {
            if i + 1 < b.len() {
                assert(ab[n + i + 1] == b[i + 1]);
                lemma_csi_shift(a, b, i + 2);
            }
            assert(escape_end(ab, n + i) == n + escape_end(b, i));
            assert(i < escape_end(b, i) <= b.len());
            lemma_plain_shift(a, b, escape_end(b, i));
            if i + 2 < b.len() && b[i + 1] == 0x5B {
                let e = csi_end(b, i + 2);
                lemma_csi_grows(b, i + 2);
                assert(ab[n + e - 1] == b[e - 1]);
            }
            assert(moves_up(ab, n + i) == moves_up(b, i));
        }
    }
}

proof fn lemma_csi_grows(b: Seq<u8>, i: int)
    requires
        0 <= i < b.len(),
    ensures
        i < csi_end(b, i) <= b.len(),
    decreases b.len() - i,
{
    if !(0x40 <= b[i] <= 0x7E) {
        if i + 1 < b.len() {
            lemma_csi_grows(b, i + 1);
        } else {
            assert(csi_end(b, i + 1) == i + 1);
        }
    }
}

proof fn lemma_plain_front(a: Seq<u8>, b: Seq<u8>, i: int)
    requires
        0 <= i <= a.len(),
        !a.contains(0x1B),
    ensures
        plain_bytes(a + b, i) == a.skip(i) + plain_bytes(b, 0),
        has_move_up(a + b, i) == has_move_up(b, 0),
    decreases a.len() - i,
{
    if i == a.len() {
        lemma_plain_shift(a, b, 0);
        assert(a.skip(i) + plain_bytes(b, 0) =~= plain_bytes(b, 0));
    } else {
        assert((a + b)[i] == a[i]);
        assert(a.contains(a[i]));
        lemma_plain_front(a, b, i + 1);
        assert(a.skip(i) =~= seq![a[i]] + a.skip(i + 1));
        assert(plain_bytes(a + b, i) =~= a.skip(i) + plain_bytes(b, 0));
    }
}

proof fn lemma_csi_at(b: Seq<u8>, i: int, e: int)
    requires
        0 <= i <= e < b.len(),
        forall|j: int| i <= j < e ==> !(0x40 <= #[trigger] b[j] <= 0x7E),
        0x40 <= b[e] <= 0x7E,
    ensures
        csi_end(b, i) == e + 1,
    decreases e - i,
{
    if i < e {
        lemma_csi_at(b, i + 1, e);
    }
}

/// A control sequence is taken out, from its beginning to the byte that ends it, and
/// nothing of what stands before and behind it; a cursor that moves up shows in it.
pub proof fn control_sequences_are_taken_out(
    front: Seq<u8>,
    middle: Seq<u8>,
    last: u8,
    rest: Seq<u8>,
)
    requires
        !front.contains(0x1B),
        forall|j: int| 0 <= j < middle.len() ==> !(0x40 <= #[trigger] middle[j] <= 0x7E),
        0x40 <= last <= 0x7E,
    ensures
        plain_bytes(front + seq![0x1Bu8, 0x5Bu8] + middle + seq![last] + rest, 0) == front
            + plain_bytes(rest, 0),
        has_move_up(front + seq![0x1Bu8, 0x5Bu8] + middle + seq![last] + rest, 0) == (last == 0x41
            || has_move_up(rest, 0)),
{
    let code = seq![0x1Bu8, 0x5Bu8] + middle + seq![last];
    let b = code + rest;
    let all = front + seq![0x1Bu8, 0x5Bu8] + middle + seq![last] + rest;
    assert(all =~= front + b);
    lemma_plain_front(front, b, 0);
    assert(front.skip(0) =~= front);
    let e = 2 + middle.len();
    assert(b[0] == 0x1B && b[1] == 0x5B);
    assert(b[e as int] == last);
    assert forall|j: int| 2 <= j < e implies !(0x40 <= #[trigger] b[j] <= 0x7E) by {
        assert(b[j] == middle[j - 2]);
    }
    lemma_csi_at(b, 2, e as int);
    assert(escape_end(b, 0) == e + 1);
    lemma_plain_shift(code, rest, 0);
    assert(code.len() == e + 1);
}

/// Any other byte behind an escape is taken out with it.
pub proof fn escaped_bytes_are_taken_out(front: Seq<u8>, x: u8, rest: Seq<u8>)
    requires
        !front.contains(0x1B),
        x != 0x5B,
    ensures
        plain_bytes(front + seq![0x1Bu8, x] + rest, 0) == front + plain_bytes(rest, 0),
        has_move_up(front + seq![0x1Bu8, x] + rest, 0) == has_move_up(rest, 0),
{
    let code = seq![0x1Bu8, x];
    let b = code + rest;
    assert(front + seq![0x1Bu8, x] + rest =~= front + b);
    lemma_plain_front(front, b, 0);
    assert(front.skip(0) =~= front);
    assert(b[0] == 0x1B && b[1] == x);
    assert(escape_end(b, 0) == 2);
    lemma_plain_shift(code, rest, 0);
}

/// Nothing has been read of a line yet.
pub open spec fn no_line() -> Assembly {
    Assembly { buf: Seq::empty(), cr: false }
}

proof fn lemma_gathers(t: Seq<u8>, n: int)
    requires
        0 <= n <= t.len(),
        t.len() + 1 < 64 * 1024,
        !t.contains(0x0A),
        !t.contains(0x0D),
    ensures
        after_bytes(no_line(), t, n) == (Assembly { buf: t.take(n), cr: false }),
        lines_ended(no_line(), t, n) == Seq::<Shown>::empty(),
    decreases n,
{
    if n > 0 {
        lemma_gathers(t, n - 1);
        assert(t.contains(t[n - 1]));
        assert(t.take(n) =~= t.take(n - 1).push(t[n - 1]));
        assert(lines_ended(no_line(), t, n) =~= Seq::<Shown>::empty());
    } else {
        assert(t.take(n) =~= Seq::<u8>::empty());
    }
}

proof fn lemma_one_byte(s: Assembly, b: u8)
    ensures
        after_bytes(s, seq![b], 1) == after_byte(s, b),
        lines_ended(s, seq![b], 1) == ended_by(s, b),
{
    reveal_with_fuel(after_bytes, 2);
    reveal_with_fuel(lines_ended, 2);
    assert(Seq::<Shown>::empty() + ended_by(s, b) =~= ended_by(s, b));
}

/// What a program writes up to a newline is a line, all of it, whether or not a
/// carriage return stands before the newline; then the next line begins. What it
/// writes over by returning to the front of the line is told as such, and what it
/// writes then is a line of its own.
pub proof fn a_line_goes_up_to_its_newline(t: Seq<u8>, w: Seq<u8>)
    requires
        t.len() + 1 < 64 * 1024,
        w.len() + 1 < 64 * 1024,
        !t.contains(0x0A) && !t.contains(0x0D),
        !w.contains(0x0A) && !w.contains(0x0D),
        w.len() > 0,
    ensures
        ({
            let a = t + seq![0x0Au8];
            let b = t + seq![0x0Du8] + seq![0x0Au8];
            let c = t + seq![0x0Du8] + w + seq![0x0Au8];
            &&& after_bytes(no_line(), a, a.len() as int) == no_line()
            &&& lines_ended(no_line(), a, a.len() as int) == shown(t, false)
            &&& after_bytes(no_line(), b, b.len() as int) == no_line()
            &&& lines_ended(no_line(), b, b.len() as int) == shown(t, false)
            &&& after_bytes(no_line(), c, c.len() as int) == no_line()
            &&& lines_ended(no_line(), c, c.len() as int) == shown(t, true) + shown(w, false)
        }),
{
    let lf = seq![0x0Au8];
    let cr = seq![0x0Du8];
    let e = Seq::<Shown>::empty();
    lemma_gathers(t, t.len() as int);
    assert(t.take(t.len() as int) =~= t);
    let s1 = Assembly { buf: t, cr: false };
    let s2 = Assembly { buf: t, cr: true };
    reads_may_be_cut_anywhere(no_line(), t, lf);
    lemma_one_byte(s1, 0x0A);
    assert(e + shown(t, false) =~= shown(t, false));
    reads_may_be_cut_anywhere(no_line(), t, cr);
    lemma_one_byte(s1, 0x0D);
    assert(e + e =~= e);
    let tc = t + cr;
    assert(after_bytes(no_line(), tc, tc.len() as int) == s2);
    assert(lines_ended(no_line(), tc, tc.len() as int) =~= e);
    reads_may_be_cut_anywhere(no_line(), tc, lf);
    lemma_one_byte(s2, 0x0A);
    let f = seq![w[0]];
    let r = w.skip(1);
    assert(w.contains(w[0]));
    lemma_one_byte(s2, w[0]);
    assert(e.len() == 0);
    let s3 = Assembly { buf: f, cr: false };
    assert(Seq::<u8>::empty().push(w[0]) =~= f);
    assert(after_byte(s2, w[0]) == s3);
    assert(ended_by(s2, w[0]) =~= shown(t, true));
    lemma_gathers(w, w.len() as int);
    assert(w =~= f + r);
    reads_may_be_cut_anywhere(no_line(), f, r);
    lemma_one_byte(no_line(), w[0]);
    assert(after_byte(no_line(), w[0]) == s3);
    assert(ended_by(no_line(), w[0]) =~= e);
    assert(w.take(w.len() as int) =~= w);
    assert(e + lines_ended(s3, r, r.len() as int) =~= lines_ended(s3, r, r.len() as int));
    assert(lines_ended(s3, r, r.len() as int) =~= e);
    reads_may_be_cut_anywhere(s2, f, r);
    let sw = Assembly { buf: w, cr: false };
    assert(after_bytes(s2, w, w.len() as int) == sw);
    assert(lines_ended(s2, w, w.len() as int) =~= shown(t, true));
    let tcw = tc + w;
    reads_may_be_cut_anywhere(no_line(), tc, w);
    assert(lines_ended(no_line(), tcw, tcw.len() as int) =~= shown(t, true));
    reads_may_be_cut_anywhere(no_line(), tcw, lf);
    lemma_one_byte(sw, 0x0A);
}

/// A line is told where it holds anything but control sequences and white space,
/// once, with its text; a line that moved the cursor up is one that is written over.
pub proof fn a_line_is_told_once(b: Seq<u8>, overwritten: bool)
    requires
        b.len() > 0,
        line_text(b).len() > 0,
    ensures
        shown(b, overwritten).len() == 1,
        shown(b, overwritten)[0].text == line_text(b),
        shown(b, overwritten)[0].overwritten == (overwritten || has_move_up(b, 0)),
{
}

/// A child that has ended is seen to have; one that runs is stopped as soon as it has
/// run for its time, and, where it can be told what it does, as soon as it showed no
/// sign of life for too long; else it is waited for.
pub proof fn a_child_is_stopped_in_time(w: Watch, now: u64, a: Option<Activity>)
    requires
        w.started <= now,
        w.last_progress <= now,
    ensures
        watch_action(w, WatchEvent::Exited) == WatchAction::Finish(Ended::Exited),
        w.deadline is Some && now - w.started >= w.deadline->0 ==> watch_action(
            w,
            WatchEvent::Counted { now, activity: a },
        ) == WatchAction::Finish(Ended::TimedOut),
        w.deadline is Some && now - w.started >= w.deadline->0 && w.stall_after is None
            ==> watch_action(w, WatchEvent::StillRunning { now }) == WatchAction::Finish(
            Ended::TimedOut,
        ),
        w.stall_after is Some && w.last_activity == a && now - w.last_progress >= w.stall_after->0
            && !(w.deadline is Some && now - w.started >= w.deadline->0) ==> watch_action(
            w,
            WatchEvent::Counted { now, activity: a },
        ) == WatchAction::Finish(Ended::Stalled),
        w.stall_after is Some && w.last_activity != a && w.stall_after->0 > 0 && !(w.deadline is Some
            && now - w.started >= w.deadline->0) ==> (watch_action(
            w,
            WatchEvent::Counted { now, activity: a },
        ) is Receive || watch_action(w, WatchEvent::Counted { now, activity: a }) is Sleep),
        w.stall_after is Some && w.last_check <= now && now - w.last_check >= 250_000_000
            ==> watch_action(w, WatchEvent::StillRunning { now }) == WatchAction::Count,
{
}

/// Every read and every other transfer counts as activity, as writing does.
pub proof fn every_transfer_is_activity(before: IoCounters, after: IoCounters)
    requires
        before.read_bytes <= after.read_bytes,
        before.write_bytes <= after.write_bytes,
        before.other_bytes <= after.other_bytes,
        before.reads <= after.reads,
        before.writes <= after.writes,
        before.others <= after.others,
        before != after,
        after.read_bytes + after.write_bytes + after.other_bytes + after.reads + after.writes
            + after.others <= u64::MAX,
    ensures
        io_total(before) < io_total(after),
{
}

/// A line that grows too long is told as far as it goes, all of it, and goes on as a new
/// line.
pub proof fn a_long_line_is_cut_and_not_lost(s: Assembly, b: u8)
    requires
        !s.cr,
        b != 0x0A,
        b != 0x0D,
    ensures
        s.buf.len() == 64 * 1024 - 1 ==> ended_by(s, b) == shown(s.buf.push(b), false)
            && after_byte(s, b) == no_line(),
        s.buf.len() < 64 * 1024 - 1 ==> ended_by(s, b) == Seq::<Shown>::empty() && after_byte(s, b)
            == (Assembly { buf: s.buf.push(b), cr: false }),
{
    assert(Seq::<Shown>::empty() + shown(s.buf.push(b), false) =~= shown(s.buf.push(b), false));
}

/// Whatever is read is reported: every line that ended, in order, or else that something
/// was read.
pub proof fn whatever_is_read_is_reported(stream: Stream, l: Seq<Shown>, k: int)
    ensures
        read_reports(stream, l).len() > 0,
        l.len() == 0 ==> read_reports(stream, l) == seq![Report::Activity],
        l.len() > 0 ==> read_reports(stream, l).len() == l.len(),
        0 <= k < l.len() ==> read_reports(stream, l)[k] == (Report::Line { stream, line: l[k] }),
        line_reports(stream, l).len() == l.len(),
        0 <= k < l.len() ==> line_reports(stream, l)[k] == (Report::Line { stream, line: l[k] }),
{
}

} // verus!
