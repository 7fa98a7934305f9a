//! Running Python and pip: which lines are passed on, what a failed run is told
//! as, and how the progress of a download is shown.
use vstd::prelude::*;

use crate::child_process::{Ended, Stream};
use crate::doubles::{divide_half_even, to_nearest_double};
use crate::doubles;
use crate::gate::describe_code;
use crate::gate;
use crate::redact::truncate_for_log;
use crate::redact;
use crate::text::{
    chars_of, contains_char, contains_text, decimal_text, ends_with, find_char, find_text, join,
    owned, parse_number, push_text, slice_text, starts_with, trim,
};
use crate::text;

verus! {

/// The number of lines kept of what was written before a failure.
pub const FAILURE_TAIL_LINES: usize = 20;

/// The time without any sign of life after which Python is stopped, in seconds.
pub const PYTHON_STALL_AFTER: u64 = 5 * 60;

/// What comes before the first colon.
pub open spec fn head_of(s: Seq<char>) -> Seq<char> {
    s.subrange(0, text::char_from(s, ':', 0))
}

/// A line that states a failure: an error of pip, a failed download of a
/// model, or the last line of an exception.
pub open spec fn states_failure(s: Seq<char>) -> bool {
    if "ERROR:"@.is_prefix_of(s) {
        true
    } else if "[hf-download]"@.is_prefix_of(s) {
        text::has_text(s, "失敗"@)
    } else {
        let head = head_of(s);
        head.len() > 0 && !head.contains(' ') && ("Error"@.is_suffix_of(head)
            || "Exception"@.is_suffix_of(head))
    }
}

/// Whether a line states a failure.
pub fn is_failure_line(line: &str) -> (r: bool)
    ensures
        r == states_failure(line@),
{
    if starts_with(line, "ERROR:") {
        return true;
    }
    if starts_with(line, "[hf-download]") {
        return contains_text(line, "失敗");
    }
    let cs = chars_of(line);
    let end: usize = find_char(&cs, ':', 0);
    let head = slice_text(&cs, 0, end);
    assert(head@ =~= head_of(line@));
    end > 0 && !contains_char(head.as_str(), ' ') && (ends_with(head.as_str(), "Error")
        || ends_with(head.as_str(), "Exception"))
}

/// What was written last, and what in it states a failure.
pub struct OutputTail {
    pub lines: Vec<String>,
    pub failure: Option<String>,
    pub last_stderr: Option<String>,
}

/// What an `OutputTail` holds.
pub struct Tail {
    /// The last lines, the oldest first.
    pub lines: Seq<Seq<char>>,
    /// The last line on the error output that states a failure.
    pub failure: Option<Seq<char>>,
    /// The last line on the error output that is not about a new version of pip.
    pub last_stderr: Option<Seq<char>>,
}

impl View for OutputTail {
    type V = Tail;

    open spec fn view(&self) -> Tail {
        Tail {
            lines: text::texts(self.lines@),
            failure: text::opt_text(self.failure),
            last_stderr: text::opt_text(self.last_stderr),
        }
    }
}

/// The last lines once one more was written.
pub open spec fn lines_kept(l: Seq<Seq<char>>, s: Seq<char>) -> Seq<Seq<char>> {
    if l.len() == FAILURE_TAIL_LINES {
        l.subrange(1, l.len() as int).push(s)
    } else {
        l.push(s)
    }
}

/// What is held once one more line was written. A line that is written over
/// shows progress only, and is not kept.
pub open spec fn tail_after(t: Tail, stream: Stream, s: Seq<char>, overwritten: bool) -> Tail {
    if overwritten {
        t
    } else {
        Tail {
            lines: lines_kept(t.lines, s),
            failure: if stream == Stream::Stderr && states_failure(s) {
                Some(s)
            } else {
                t.failure
            },
            last_stderr: if stream == Stream::Stderr && !"[notice]"@.is_prefix_of(s) {
                Some(s)
            } else {
                t.last_stderr
            },
        }
    }
}

/// Why a run failed, as far as what was written says.
pub open spec fn tail_reason(t: Tail) -> Option<Seq<char>> {
    if t.failure is Some {
        t.failure
    } else {
        t.last_stderr
    }
}

impl OutputTail {
    /// No more lines than are kept.
    pub open spec fn wf(self) -> bool {
        self.lines@.len() <= FAILURE_TAIL_LINES
    }

    /// Nothing was written.
    pub fn new() -> (r: Self)
        ensures
            r.wf(),
            r@ == (Tail { lines: Seq::empty(), failure: None, last_stderr: None }),
    {
        let r = OutputTail { lines: Vec::new(), failure: None, last_stderr: None };
        assert(text::texts(r.lines@) =~= Seq::<Seq<char>>::empty());
        r
    }

    /// One more line was written.
    pub fn push(&mut self, stream: Stream, line: &str, overwritten: bool)
        requires
            old(self).wf(),
        ensures
            final(self).wf(),
            final(self)@ == tail_after(old(self)@, stream, line@, overwritten),
    {
        if overwritten {
            return;
        }
        let ghost before = text::texts(self.lines@);
        if self.lines.len() == FAILURE_TAIL_LINES {
            self.lines.remove(0);
            assert(text::texts(self.lines@) =~= before.subrange(1, before.len() as int));
        }
        let ghost rest = text::texts(self.lines@);
        self.lines.push(owned(line));
        assert(text::texts(self.lines@) =~= rest.push(line@));
        assert(text::texts(self.lines@) == lines_kept(before, line@));
        if stream == Stream::Stderr {
            if is_failure_line(line) {
                self.failure = Some(owned(line));
            }
            if !starts_with(line, "[notice]") {
                self.last_stderr = Some(owned(line));
            }
        }
    }

    /// Why a run failed: the last line that states a failure, or else the last
    /// line on the error output.
    pub fn reason(&self) -> (r: Option<&String>)
        ensures
            (match r {
                Some(s) => Some(s@),
                None => None,
            }) == tail_reason(self@),
    {
        match &self.failure {
            Some(s) => Some(s),
            None => match &self.last_stderr {
                Some(s) => Some(s),
                None => None,
            },
        }
    }
}

/// An amount of bytes in megabytes, as it is shown.
pub open spec fn megabytes(n: nat) -> nat {
    doubles::half_even(doubles::nearest_double(n), 0x10_0000)
}

/// An amount of bytes in megabytes.
pub fn to_megabytes(n: u64) -> (r: u64)
    ensures
        r == megabytes(n as nat),
{
    let near: u128 = to_nearest_double(n);
    let m: u128 = divide_half_even(near, 0x10_0000);
    m as u64
}

/// How far a download is.
#[derive(Clone, Copy, Debug, PartialEq, Eq, Structural)]
pub struct PipProgress {
    /// The percentage that was last shown.
    pub shown_percent: Option<u64>,
    /// Where the size is not known, the amount that was last shown.
    pub shown_bytes: Option<u64>,
}

/// Where the size is not known, the amount between two lines that are shown.
pub const BYTES_STEP: u64 = 10 * 1024 * 1024;

/// What a line of pip says of a download: how much is there, of how much.
pub open spec fn progress_in(line: Seq<char>) -> Option<(u64, u64)> {
    if !"Progress "@.is_prefix_of(line) {
        None
    } else {
        let rest = line.subrange("Progress "@.len() as int, line.len() as int);
        match text::found_from(rest, " of "@, 0) {
            None => None,
            Some(k) => {
                let done = text::number_upto(text::trimmed(rest.subrange(0, k)), u64::MAX);
                let total = text::number_upto(
                    text::trimmed(rest.subrange(k + " of "@.len(), rest.len() as int)),
                    u64::MAX,
                );
                if done is Some && total is Some {
                    Some((done->0, total->0))
                } else {
                    None
                }
            },
        }
    }
}

/// The percentage; a product that does not fit is taken as the largest number.
pub open spec fn percent_of(done: u64, total: u64) -> nat {
    if done * 100 > u64::MAX {
        (u64::MAX / total) as nat
    } else {
        (done as nat * 100) / (total as nat)
    }
}

/// What is shown of a download whose size is known.
pub open spec fn percent_text(done: u64, total: u64) -> Seq<char> {
    "  取得中 "@ + text::decimal(megabytes(done as nat)) + " / "@ + text::decimal(
        megabytes(total as nat),
    ) + " MB（"@ + text::decimal(percent_of(done, total)) + "%）"@
}

/// What is shown of a download whose size is not known.
pub open spec fn bytes_text(done: u64) -> Seq<char> {
    "  取得中 "@ + text::decimal(megabytes(done as nat)) + " MB"@
}

/// What is shown of a line: `None` where it is not about progress, `Some(None)`
/// where it is but nothing new is shown.
pub open spec fn progress_shown(p: PipProgress, line: Seq<char>) -> Option<Option<Seq<char>>> {
    match progress_in(line) {
        None => None,
        Some((done, total)) => if total > 0 {
            if p.shown_percent is Some && p.shown_percent->0 == percent_of(done, total) {
                Some(None)
            } else {
                Some(Some(percent_text(done, total)))
            }
        } else if shows_bytes(p, done) {
            Some(Some(bytes_text(done)))
        } else {
            Some(None)
        },
    }
}

/// An amount is shown anew: it is the first one, a new download has begun, or
/// enough has come since.
pub open spec fn shows_bytes(p: PipProgress, done: u64) -> bool {
    match p.shown_bytes {
        None => true,
        Some(prev) => done < prev || done >= prev + BYTES_STEP,
    }
}

/// What was last shown, once a line came.
pub open spec fn progress_after(p: PipProgress, line: Seq<char>) -> PipProgress {
    match progress_in(line) {
        None => p,
        Some((done, total)) => if total > 0 {
            PipProgress {
                shown_percent: Some(percent_of(done, total) as u64),
                shown_bytes: p.shown_bytes,
            }
        } else if shows_bytes(p, done) {
            PipProgress { shown_percent: p.shown_percent, shown_bytes: Some(done) }
        } else {
            p
        },
    }
}

/// What is shown once is not shown again: the same line a second time shows
/// nothing new. What is shown of a download that is not larger than announced is
/// never more than a hundred percent.
pub proof fn progress_is_shown_once(p: PipProgress, line: Seq<char>)
    ensures
        progress_in(line) is Some ==> progress_shown(progress_after(p, line), line) == Some(
            None::<Seq<char>>,
        ),
        (progress_in(line) matches Some((done, total)) ==> (0 < total && done <= total ==> percent_of(
            done,
            total,
        ) <= 100)),
{
    match progress_in(line) {
        None => {},
        Some((done, total)) => {
            if total > 0 {
                lemma_percent_fits(done, total);
                if done <= total {
                    lemma_percent_bound(done, total);
                }
            }
        },
    }
}

proof fn lemma_percent_fits(done: u64, total: u64)
    requires
        total > 0,
    ensures
        percent_of(done, total) <= u64::MAX,
{
    if done * 100 > u64::MAX {
        assert(u64::MAX / total <= u64::MAX) by (nonlinear_arith)
            requires
                total > 0,
        ;
    } else {
        let n = done as nat * 100;
        let t = total as nat;
        assert(n / t <= n) by (nonlinear_arith)
            requires
                t > 0,
        ;
    }
}

proof fn lemma_percent_bound(done: u64, total: u64)
    requires
        0 < total,
        done <= total,
    ensures
        percent_of(done, total) <= 100,
{
    if done * 100 > u64::MAX {
        let t = total as int;
        let m = u64::MAX as int;
        assert(m / t <= 100) by (nonlinear_arith)
            requires
                t > 0,
                t * 100 > m,
        ;
    } else {
        let d = done as int;
        let t = total as int;
        assert((d * 100) / t <= 100) by (nonlinear_arith)
            requires
                t > 0,
                d <= t,
        ;
    }
}

/// A text that may be missing at two levels.
pub open spec fn shown_text(o: Option<Option<String>>) -> Option<Option<Seq<char>>> {
    match o {
        Some(t) => Some(text::opt_text(t)),
        None => None,
    }
}

/// Reads a line about progress.
fn read_progress(line: &str) -> (r: Option<(u64, u64)>)
    ensures
        r == progress_in(line@),
{
    if !starts_with(line, "Progress ") {
        return None;
    }
    proof {
        reveal_strlit("Progress ");
        reveal_strlit(" of ");
    }
    let cs = chars_of(line);
    let rest = chars_of(slice_text(&cs, 9, cs.len()).as_str());
    let of = chars_of(" of ");
    assert(rest@ == line@.subrange("Progress "@.len() as int, line@.len() as int));
    match find_text(&rest, &of) {
        None => None,
        Some(k) => {
            let done = parse_number(trim(slice_text(&rest, 0, k).as_str()).as_str(), u64::MAX);
            let total = parse_number(
                trim(slice_text(&rest, k + 4, rest.len()).as_str()).as_str(),
                u64::MAX,
            );
            match (done, total) {
                (Some(d), Some(t)) => Some((d, t)),
                _ => None,
            }
        },
    }
}

impl PipProgress {
    /// Nothing was shown.
    pub fn new() -> (r: Self)
        ensures
            r == (PipProgress { shown_percent: None, shown_bytes: None }),
    {
        PipProgress { shown_percent: None, shown_bytes: None }
    }

    /// Turns a line about progress into what is shown. pip writes several of
    /// them in a second; only a new percentage is shown.
    pub fn describe(&mut self, line: &str) -> (r: Option<Option<String>>)
        ensures
            shown_text(r) == progress_shown(*old(self), line@),
            *final(self) == progress_after(*old(self), line@),
    {
        match read_progress(line) {
            None => None,
            Some((done, total)) => if total > 0 {
                let scaled: u64 = if done > u64::MAX / 100 {
                    u64::MAX
                } else {
                    done * 100
                };
                let percent: u64 = scaled / total;
                assert(percent == percent_of(done, total));
                match self.shown_percent {
                    Some(p) => {
                        if p == percent {
                            return Some(None);
                        }
                    },
                    None => {},
                }
                self.shown_percent = Some(percent);
                let mut out = owned("  取得中 ");
                push_text(&mut out, decimal_text(to_megabytes(done)).as_str());
                push_text(&mut out, " / ");
                push_text(&mut out, decimal_text(to_megabytes(total)).as_str());
                push_text(&mut out, " MB（");
                push_text(&mut out, decimal_text(percent).as_str());
                push_text(&mut out, "%）");
                Some(Some(out))
            } else {
                let show = match self.shown_bytes {
                    None => true,
                    Some(prev) => done < prev || done - prev >= BYTES_STEP,
                };
                if !show {
                    return Some(None);
                }
                self.shown_bytes = Some(done);
                let mut out = owned("  取得中 ");
                push_text(&mut out, decimal_text(to_megabytes(done)).as_str());
                push_text(&mut out, " MB");
                Some(Some(out))
            },
        }
    }
}

/// One run of Python: what it writes is looked through on the way.
pub struct PythonRun {
    pub progress: PipProgress,
    pub tail: OutputTail,
}

/// What a line is passed on as: its text, and whether it is written over.
pub open spec fn passed_on(p: PipProgress, line: Seq<char>, overwritten: bool) -> Option<
    (Seq<char>, bool),
> {
    match progress_shown(p, line) {
        None => Some((line, overwritten)),
        Some(None) => None,
        Some(Some(t)) => Some((t, true)),
    }
}

/// A line that may be missing.
pub open spec fn opt_line(o: Option<(String, bool)>) -> Option<(Seq<char>, bool)> {
    match o {
        Some((t, b)) => Some((t@, b)),
        None => None,
    }
}

/// What a run that failed is told as; `None` where it did not.
pub open spec fn run_failure(t: Tail, ended: Ended, code: Option<i32>) -> Option<Seq<char>> {
    match ended {
        Ended::Exited => if code == Some(0i32) {
            None
        } else {
            let head = "python 異常終了 (code "@ + gate::code_text(code) + ")"@;
            match tail_reason(t) {
                Some(why) => Some(head + ": "@ + why),
                None => Some(head),
            }
        },
        Ended::Stalled => Some(STALLED_TEXT@),
        Ended::TimedOut => Some(TIMED_OUT_TEXT@),
    }
}

pub const STALLED_TEXT: &'static str =
    "Python の処理が 5 分間、出力も読み書きもしないまま止まっていたので中断しました";

pub const TIMED_OUT_TEXT: &'static str =
    "Python の処理が時間内に終わらなかったので中断しました";

impl PythonRun {
    /// No more lines than are kept.
    pub open spec fn wf(self) -> bool {
        self.tail.wf()
    }

    /// Nothing was written.
    pub fn new() -> (r: Self)
        ensures
            r.wf(),
            r.progress == (PipProgress { shown_percent: None, shown_bytes: None }),
            r.tail@ == (Tail { lines: Seq::empty(), failure: None, last_stderr: None }),
    {
        PythonRun { progress: PipProgress::new(), tail: OutputTail::new() }
    }

    /// A line was written; says what is passed on in its place.
    pub fn on_line(&mut self, stream: Stream, line: &str, overwritten: bool) -> (r: Option<
        (String, bool),
    >)
        requires
            old(self).wf(),
        ensures
            final(self).wf(),
            opt_line(r) == passed_on(old(self).progress, line@, overwritten),
            final(self).progress == progress_after(old(self).progress, line@),
            final(self).tail@ == (if progress_in(line@) is Some {
                old(self).tail@
            } else {
                tail_after(old(self).tail@, stream, line@, overwritten)
            }),
    {
        match self.progress.describe(line) {
            Some(shown) => match shown {
                Some(t) => Some((t, true)),
                None => None,
            },
            None => {
                self.tail.push(stream, line, overwritten);
                Some((owned(line), overwritten))
            },
        }
    }

    /// The run is over; says what it failed of.
    pub fn finish(&self, ended: Ended, code: Option<i32>) -> (r: Option<String>)
        ensures
            text::opt_text(r) == run_failure(self.tail@, ended, code),
    {
        match ended {
            Ended::Exited => {
                match code {
                    Some(c) => {
                        if c == 0 {
                            return None;
                        }
                    },
                    None => {},
                }
                let mut out = owned("python 異常終了 (code ");
                push_text(&mut out, describe_code(code).as_str());
                push_text(&mut out, ")");
                match self.tail.reason() {
                    Some(why) => {
                        push_text(&mut out, ": ");
                        push_text(&mut out, why.as_str());
                    },
                    None => {},
                }
                Some(out)
            },
            Ended::Stalled => Some(owned(STALLED_TEXT)),
            Ended::TimedOut => Some(owned(TIMED_OUT_TEXT)),
        }
    }
}

/// A line as it was passed on.
#[derive(Debug, PartialEq, Eq)]
pub struct Line {
    pub stream: Stream,
    pub text: String,
    pub overwritten: bool,
}

/// The last of the first `n` lines on the error output that is not written over.
pub open spec fn last_error(l: Seq<Line>, n: int) -> Option<Seq<char>>
    decreases n,
{
    if n <= 0 {
        None
    } else if l[n - 1].stream == Stream::Stderr && !l[n - 1].overwritten {
        Some(l[n - 1].text@)
    } else {
        last_error(l, n - 1)
    }
}

/// Why a run failed, where it did: the last line on the error output, or else
/// what the run is told to have failed of.
pub fn failure_reason(lines: &Vec<Line>, failure: Option<String>) -> (r: Option<String>)
    ensures
        text::opt_text(r) == (match failure {
            None => None,
            Some(f) => match last_error(lines@, lines@.len() as int) {
                Some(s) => Some(s),
                None => Some(f@),
            },
        }),
{
    match failure {
        None => None,
        Some(f) => {
            let mut i: usize = lines.len();
            while i > 0
                invariant
                    i <= lines@.len(),
                    failure is Some,
                    last_error(lines@, lines@.len() as int) == last_error(lines@, i as int),
                decreases i,
            {
                i -= 1;
                if lines[i].stream == Stream::Stderr && !lines[i].overwritten {
                    return Some(owned(lines[i].text.as_str()));
                }
            }
            Some(f)
        },
    }
}

/// Arguments as they are logged: a script is left out.
pub open spec fn logged_args(args: Seq<Seq<char>>) -> Seq<Seq<char>> {
    Seq::new(
        args.len(),
        |i: int|
            if args[i].contains('\n') {
                "<script>"@
            } else {
                args[i]
            },
    )
}

/// The arguments of a run, for the log.
pub fn describe_args(args: &Vec<String>) -> (r: String)
    ensures
        r@ == redact::cut(
            text::joined(logged_args(text::texts(args@)), " "@, args@.len() as int),
        ),
{
    let ghost all = logged_args(text::texts(args@));
    let mut shown: Vec<String> = Vec::new();
    let mut i: usize = 0;
    while i < args.len()
        invariant
            i <= args@.len(),
            shown@.len() == i,
            all == logged_args(text::texts(args@)),
            forall|k: int| 0 <= k < i ==> (#[trigger] shown@[k])@ == all[k],
        decreases args@.len() - i,
    {
        assert(text::texts(args@)[i as int] == args@[i as int]@);
        if contains_char(args[i].as_str(), '\n') {
            shown.push(owned("<script>"));
        } else {
            shown.push(owned(args[i].as_str()));
        }
        i += 1;
    }
    assert(text::texts(shown@) =~= all);
    truncate_for_log(join(&shown, " ").as_str())
}

/// The arguments that pip is run with to install something. Progress in lines
/// is asked for only where pip knows how.
pub open spec fn pip_args(args: Seq<Seq<char>>, raw_progress: bool) -> Seq<Seq<char>> {
    seq![
        "-m"@,
        "pip"@,
        "install"@,
        "--no-warn-script-location"@,
        "--disable-pip-version-check"@,
    ] + (if raw_progress {
        seq!["--progress-bar"@, "raw"@]
    } else {
        Seq::empty()
    }) + args
}

/// The arguments that pip is run with to install something.
pub fn pip_install_args(args: &Vec<String>, raw_progress: bool) -> (r: Vec<String>)
    ensures
        text::texts(r@) == pip_args(text::texts(args@), raw_progress),
{
    let mut out: Vec<String> = Vec::new();
    out.push(owned("-m"));
    out.push(owned("pip"));
    out.push(owned("install"));
    out.push(owned("--no-warn-script-location"));
    out.push(owned("--disable-pip-version-check"));
    if raw_progress {
        out.push(owned("--progress-bar"));
        out.push(owned("raw"));
    }
    let ghost all = pip_args(text::texts(args@), raw_progress);
    let ghost n = out@.len();
    let mut i: usize = 0;
    assert(text::texts(out@) =~= all.take(n as int));
    while i < args.len()
        invariant
            i <= args@.len(),
            all == pip_args(text::texts(args@), raw_progress),
            n == (if raw_progress {
                7nat
            } else {
                5nat
            }),
            text::texts(out@) == all.take(n + i),
        decreases args@.len() - i,
    {
        let ghost before = text::texts(out@);
        assert(text::texts(args@)[i as int] == args@[i as int]@);
        out.push(owned(args[i].as_str()));
        assert(text::texts(out@) =~= before.push(args@[i as int]@));
        assert(all.take(n + i + 1) =~= all.take(n + i).push(args@[i as int]@));
        i += 1;
    }
    assert(all.take((n + args@.len()) as int) =~= all);
    out
}

/// The version of pip that metadata of that name is of.
pub open spec fn pip_version(entry: Seq<char>) -> Option<Seq<char>> {
    let rest = entry.subrange("pip-"@.len() as int, entry.len() as int);
    if "pip-"@.is_prefix_of(entry) && ".dist-info"@.is_suffix_of(rest) {
        Some(rest.subrange(0, rest.len() - ".dist-info"@.len()))
    } else {
        None
    }
}

/// The first number of a version.
pub open spec fn major_of(v: Seq<char>) -> Option<u64> {
    text::number_upto(v.subrange(0, text::char_from(v, '.', 0)), u32::MAX as u64)
}

/// The second number of a version.
pub open spec fn minor_of(v: Seq<char>) -> Option<u64> {
    let dot = text::char_from(v, '.', 0);
    if dot == v.len() {
        None
    } else {
        text::number_upto(
            v.subrange(dot + 1, text::char_from(v, '.', dot + 1)),
            u32::MAX as u64,
        )
    }
}

/// The metadata is of a pip that can write progress in lines: 24.1 or later.
pub open spec fn knows_raw_progress(entry: Seq<char>) -> bool {
    match pip_version(entry) {
        None => false,
        Some(v) => major_of(v) is Some && minor_of(v) is Some && (major_of(v)->0 > 24 || (major_of(
            v,
        )->0 == 24 && minor_of(v)->0 >= 1)),
    }
}

fn entry_knows_raw_progress(entry: &str) -> (r: bool)
    ensures
        r == knows_raw_progress(entry@),
{
    if !starts_with(entry, "pip-") {
        return false;
    }
    proof {
        reveal_strlit("pip-");
        reveal_strlit(".dist-info");
    }
    let cs = chars_of(entry);
    let rest_text = slice_text(&cs, 4, cs.len());
    assert(rest_text@ =~= entry@.subrange("pip-"@.len() as int, entry@.len() as int));
    if !ends_with(rest_text.as_str(), ".dist-info") {
        return false;
    }
    let rest = chars_of(rest_text.as_str());
    let v = chars_of(slice_text(&rest, 0, rest.len() - 10).as_str());
    let dot: usize = find_char(&v, '.', 0);
    if dot == v.len() {
        return false;
    }
    let dot2: usize = find_char(&v, '.', dot + 1);
    let major = parse_number(slice_text(&v, 0, dot).as_str(), u32::MAX as u64);
    let minor = parse_number(slice_text(&v, dot + 1, dot2).as_str(), u32::MAX as u64);
    match (major, minor) {
        (Some(a), Some(b)) => a > 24 || (a == 24 && b >= 1),
        _ => false,
    }
}

/// Whether the pip that is installed can write progress in lines; not where
/// that cannot be told.
pub fn pip_has_raw_progress(entries: &Vec<String>) -> (r: bool)
    ensures
        r == exists|i: int| 0 <= i < entries@.len() && knows_raw_progress(#[trigger] entries@[i]@),
{
    let mut i: usize = 0;
    while i < entries.len()
        invariant
            i <= entries@.len(),
            forall|k: int| 0 <= k < i ==> !knows_raw_progress(#[trigger] entries@[k]@),
        decreases entries@.len() - i,
    {
        if entry_knows_raw_progress(entries[i].as_str()) {
            return true;
        }
        i += 1;
    }
    false
}

/// A line of a program, as it comes.
pub struct Said {
    pub stream: Stream,
    pub text: Seq<char>,
    pub overwritten: bool,
}

/// The tail of the output after its first `n` lines.
pub open spec fn tail_run(t: Tail, l: Seq<Said>, n: int) -> Tail
    decreases n,
{
    if n <= 0 {
        t
    } else {
        tail_after(tail_run(t, l, n - 1), l[n - 1].stream, l[n - 1].text, l[n - 1].overwritten)
    }
}

/// The texts of the lines that stand.
pub open spec fn standing(l: Seq<Said>) -> Seq<Seq<char>> {
    l.filter(|x: Said| !x.overwritten).map_values(|x: Said| x.text)
}

proof fn lemma_standing_push(l: Seq<Said>, n: int)
    requires
        0 < n <= l.len(),
    ensures
        standing(l.take(n)) == (if l[n - 1].overwritten {
            standing(l.take(n - 1))
        } else {
            standing(l.take(n - 1)).push(l[n - 1].text)
        }),
{
    reveal(Seq::filter);
    let f = |x: Said| !x.overwritten;
    let g = |x: Said| x.text;
    assert(l.take(n).drop_last() =~= l.take(n - 1));
    let rest = l.take(n - 1).filter(f);
    if !l[n - 1].overwritten {
        assert(l.take(n).filter(f) =~= rest.push(l[n - 1]));
        assert(rest.push(l[n - 1]).map_values(g) =~= rest.map_values(g).push(l[n - 1].text));
    }
}

/// Nothing was said yet.
pub open spec fn no_tail() -> Tail {
    Tail { lines: Seq::empty(), failure: None, last_stderr: None }
}

/// The last twenty lines that stand are kept, in their order; of the error output the
/// last line that states a failure, and the last that is not about a new version of
/// pip. The former is the reason of a failure where there is one, else the latter.
pub proof fn the_last_lines_are_kept(l: Seq<Said>, n: int, k: int)
    requires
        0 <= n <= l.len(),
    ensures
        ({
            let t = tail_run(no_tail(), l, n);
            let s = standing(l.take(n));
            &&& t.lines == (if s.len() <= 20 {
                s
            } else {
                s.skip(s.len() - 20)
            })
            &&& 0 <= k < n && is_failure_said(l[k]) && (forall|i: int|
                k < i < n ==> !is_failure_said(#[trigger] l[i])) ==> t.failure == Some(l[k].text)
            &&& (forall|i: int| 0 <= i < n ==> !is_failure_said(#[trigger] l[i]))
                ==> t.failure is None
            &&& 0 <= k < n && is_error_said(l[k]) && (forall|i: int|
                k < i < n ==> !is_error_said(#[trigger] l[i])) ==> t.last_stderr == Some(l[k].text)
            &&& (forall|i: int| 0 <= i < n ==> !is_error_said(#[trigger] l[i]))
                ==> t.last_stderr is None
            &&& t.failure is Some ==> tail_reason(t) == t.failure
            &&& t.failure is None ==> tail_reason(t) == t.last_stderr
        }),
    decreases n,
{
    if n > 0 {
        the_last_lines_are_kept(l, n - 1, k);
        lemma_standing_push(l, n);
        let a = standing(l.take(n - 1));
        let s = standing(l.take(n));
        let t = tail_run(no_tail(), l, n);
        if !l[n - 1].overwritten {
            if a.len() >= 20 {
                assert(a.skip(a.len() - 20).subrange(1, 20).push(l[n - 1].text) =~= s.skip(
                    s.len() - 20,
                )) by {
                    if a.len() == 20 {
                        assert(a.skip(0) =~= a);
                    }
                }
                if a.len() == 20 {
                    assert(a.skip(0) =~= a);
                }
            }
        }
        if 0 <= k < n - 1 && (forall|i: int| k < i < n ==> !is_failure_said(#[trigger] l[i])) {
            assert(!is_failure_said(l[n - 1]));
        }
        if 0 <= k < n - 1 && (forall|i: int| k < i < n ==> !is_error_said(#[trigger] l[i])) {
            assert(!is_error_said(l[n - 1]));
        }
        if forall|i: int| 0 <= i < n ==> !is_failure_said(#[trigger] l[i]) {
            assert(!is_failure_said(l[n - 1]));
        }
        if forall|i: int| 0 <= i < n ==> !is_error_said(#[trigger] l[i]) {
            assert(!is_error_said(l[n - 1]));
        }
    } else {
        reveal(Seq::filter);
        assert(l.take(0) =~= Seq::<Said>::empty());
        assert(standing(l.take(0)) =~= Seq::<Seq<char>>::empty());
    }
}

/// The line stands on the error output and states a failure.
pub open spec fn is_failure_said(x: Said) -> bool {
    !x.overwritten && x.stream == Stream::Stderr && states_failure(x.text)
}

/// The line stands on the error output and is not about a new version of pip.
pub open spec fn is_error_said(x: Said) -> bool {
    !x.overwritten && x.stream == Stream::Stderr && !"[notice]"@.is_prefix_of(x.text)
}

/// A run of Python succeeded exactly where it ended by itself with the code zero;
/// where it ended with another, the reason is told if there is one.
pub proof fn a_run_fails_unless_it_ends_with_zero(t: Tail, ended: Ended, code: Option<i32>)
    ensures
        run_failure(t, ended, code) is None <==> ended == Ended::Exited && code == Some(0i32),
        ended == Ended::Exited && code != Some(0i32) && tail_reason(t) is Some ==> (
        tail_reason(t)->0).is_suffix_of(run_failure(t, ended, code)->0),
{
    if ended == Ended::Exited && code != Some(0i32) && tail_reason(t) is Some {
        let why = tail_reason(t)->0;
        let all = run_failure(t, ended, code)->0;
        assert(all.subrange(all.len() - why.len(), all.len() as int) =~= why);
    }
}

/// Of the lines on the error output that stand the last one counts.
pub proof fn the_last_error_counts(l: Seq<Line>, n: int, k: int)
    requires
        0 <= n <= l.len(),
    ensures
        0 <= k < n && l[k].stream == Stream::Stderr && !l[k].overwritten && (forall|i: int|
            k < i < n ==> (#[trigger] l[i]).stream != Stream::Stderr || l[i].overwritten)
            ==> last_error(l, n) == Some(l[k].text@),
        (forall|i: int|
            0 <= i < n ==> (#[trigger] l[i]).stream != Stream::Stderr || l[i].overwritten)
            ==> last_error(l, n) is None,
    decreases n,
{
    if n > 0 {
        the_last_error_counts(l, n - 1, k);
        if 0 <= k < n - 1 && (forall|i: int|
            k < i < n ==> (#[trigger] l[i]).stream != Stream::Stderr || l[i].overwritten) {
            assert(l[n - 1].stream != Stream::Stderr || l[n - 1].overwritten);
        }
        if forall|i: int|
            0 <= i < n ==> (#[trigger] l[i]).stream != Stream::Stderr || l[i].overwritten {
            assert(l[n - 1].stream != Stream::Stderr || l[n - 1].overwritten);
        }
    }
}

/// The percentage is that of what was fetched, rounded down.
pub proof fn the_percentage_is_of_what_was_fetched(done: u64, total: u64)
    requires
        total > 0,
        done * 100 <= u64::MAX,
    ensures
        percent_of(done, total) * total <= 100 * done < (percent_of(done, total) + 1) * total,
{
    let p = percent_of(done, total) as int;
    let d = 100 * done as int;
    let t = total as int;
    assert(p * t <= d < (p + 1) * t) by (nonlinear_arith)
        requires
            p == d / t,
            t > 0,
    ;
}

/// Amounts are told in the nearest number of mebibytes.
pub proof fn amounts_are_told_in_mebibytes(n: nat)
    requires
        n < 0x20_0000_0000_0000,
    ensures
        2 * (megabytes(n) * 0x10_0000) <= 2 * n + 0x10_0000,
        2 * n <= 2 * (megabytes(n) * 0x10_0000) + 0x10_0000,
{
    assert(doubles::double_spacing(n, 1) == 1);
    assert(doubles::nearest_double(n) == n);
}

/// What pip is given ends in what was asked for, all of it, and begins with what has
/// it install; how far it is is asked for in a form that can be read, where it knows
/// that form.
pub proof fn pip_is_given_what_was_asked_for(args: Seq<Seq<char>>, raw_progress: bool)
    ensures
        args.is_suffix_of(pip_args(args, raw_progress)),
        seq!["-m"@, "pip"@, "install"@].is_prefix_of(pip_args(args, raw_progress)),
        pip_args(args, raw_progress).len() == args.len() + (if raw_progress {
            7int
        } else {
            5int
        }),
        raw_progress ==> pip_args(args, raw_progress)[5] == "--progress-bar"@ && pip_args(
            args,
            raw_progress,
        )[6] == "raw"@,
{
    let all = pip_args(args, raw_progress);
    assert(all.subrange(all.len() - args.len(), all.len() as int) =~= args);
    assert(all.take(3) =~= seq!["-m"@, "pip"@, "install"@]);
}

/// The version of pip is what stands between `pip-` and `.dist-info`.
pub proof fn an_entry_names_the_version_of_pip(v: Seq<char>)
    ensures
        pip_version("pip-"@ + v + ".dist-info"@) == Some(v),
{
    reveal_strlit("pip-");
    reveal_strlit(".dist-info");
    let e = "pip-"@ + v + ".dist-info"@;
    assert("pip-"@.is_prefix_of(e));
    let rest = e.subrange(4, e.len() as int);
    assert(rest =~= v + ".dist-info"@);
    assert(rest.subrange(rest.len() - 10, rest.len() as int) =~= ".dist-info"@);
    assert(rest.subrange(0, rest.len() - 10) =~= v);
}

/// What pip tells of its progress is read as it is told, whatever the two numbers are.
pub proof fn progress_is_read_as_told(done: u64, total: u64)
    ensures
        progress_in(
            "Progress "@ + text::decimal(done as nat) + " of "@ + text::decimal(total as nat),
        ) == Some((done, total)),
{
    reveal_strlit("Progress ");
    reveal_strlit(" of ");
    let d = text::decimal(done as nat);
    let t = text::decimal(total as nat);
    let line = "Progress "@ + d + " of "@ + t;
    text::numbers_are_read_as_they_are_written(done as nat, u64::MAX);
    text::numbers_are_read_as_they_are_written(total as nat, u64::MAX);
    assert(line.take(9) =~= "Progress "@);
    let rest = line.subrange(9, line.len() as int);
    assert(rest =~= d + " of "@ + t);
    let k = d.len() as int;
    text::the_first_occurrence_is_found(rest, " of "@, 0);
    assert(rest.subrange(k, k + 4) =~= " of "@);
    assert(text::matches_at(rest, k, " of "@));
    assert forall|j: int| 0 <= j < k implies !#[trigger] text::matches_at(rest, j, " of "@) by {
        assert(rest[j] == d[j]);
        assert(text::is_digit(d[j]));
        if text::matches_at(rest, j, " of "@) {
            assert(rest.subrange(j, j + 4)[0] == rest[j]);
        }
    }
    assert(rest.subrange(0, k) =~= d);
    assert(rest.subrange(k + 4, rest.len() as int) =~= t);
}

/// Raw progress can be had of pip from version 24.1 on, whatever comes behind the second
/// number, and not before.
pub proof fn raw_progress_from_a_version_on(major: u32, minor: u32, more: Seq<char>)
    requires
        more.len() == 0 || more[0] == '.',
    ensures
        knows_raw_progress(
            "pip-"@ + (text::decimal(major as nat) + "."@ + text::decimal(minor as nat) + more)
                + ".dist-info"@,
        ) <==> major > 24 || (major == 24 && minor >= 1),
{
    reveal_strlit(".");
    reveal_strlit("pip-");
    reveal_strlit(".dist-info");
    let a = text::decimal(major as nat);
    let b = text::decimal(minor as nat);
    let v = a + "."@ + b + more;
    let entry = "pip-"@ + v + ".dist-info"@;
    text::numbers_are_read_as_they_are_written(major as nat, u32::MAX as u64);
    text::numbers_are_read_as_they_are_written(minor as nat, u32::MAX as u64);
    let rest = entry.subrange(4, entry.len() as int);
    assert(entry.take(4) =~= "pip-"@);
    assert(rest =~= v + ".dist-info"@);
    assert(rest.subrange(rest.len() - 10, rest.len() as int) =~= ".dist-info"@);
    assert(rest.subrange(0, rest.len() - 10) =~= v);
    assert(pip_version(entry) == Some(v));
    let k = a.len() as int;
    text::the_first_character_is_found(v, '.', 0);
    assert(v[k] == '.');
    assert forall|j: int| 0 <= j < k implies v[j] != '.' by {
        assert(v[j] == a[j]);
        assert(text::is_digit(a[j]));
    }
    assert(text::char_from(v, '.', 0) == k);
    text::the_first_character_is_found(v, '.', k + 1);
    let e = k + 1 + b.len();
    assert forall|j: int| k + 1 <= j < e implies v[j] != '.' by {
        assert(v[j] == b[j - k - 1]);
        assert(text::is_digit(b[j - k - 1]));
    }
    if more.len() > 0 {
        assert(v[e] == more[0]);
    }
    assert(text::char_from(v, '.', k + 1) == e);
    assert(v.subrange(0, k) =~= a);
    assert(v.subrange(k + 1, e) =~= b);
}

/// A line states a failure where pip marks it as an error, where a download says so, and
/// where the name of an error stands in front of a colon; a line without any of these
/// states none.
pub proof fn what_states_a_failure(front: Seq<char>, rest: Seq<char>)
    requires
        !front.contains(':'),
        !front.contains(' '),
    ensures
        states_failure("ERROR:"@ + rest),
        text::has_text(rest, "失敗"@) ==> states_failure("[hf-download]"@ + rest),
        !"[hf-download]"@.is_prefix_of(front + "Error:"@ + rest) ==> states_failure(
            front + "Error:"@ + rest,
        ),
        !"[hf-download]"@.is_prefix_of(front + "Exception:"@ + rest) ==> states_failure(
            front + "Exception:"@ + rest,
        ),
        !states_failure(" "@ + rest),
{
    reveal_strlit("ERROR:");
    reveal_strlit("Error");
    reveal_strlit("Error:");
    reveal_strlit("Exception");
    reveal_strlit("Exception:");
    reveal_strlit("[hf-download]");
    reveal_strlit(" ");
    assert(("ERROR:"@ + rest).take(6) =~= "ERROR:"@);
    let h = "[hf-download]"@ + rest;
    assert(h.take(13) =~= "[hf-download]"@);
    if text::has_text(rest, "失敗"@) {
        let e = Seq::<char>::empty();
        text::lemma_holds_more("[hf-download]"@, rest, e, "失敗"@);
        assert("[hf-download]"@ + rest + e =~= h);
    }
    lemma_named_head(front, "Error"@, "Error:"@, rest);
    lemma_named_head(front, "Exception"@, "Exception:"@, rest);
    let s = " "@ + rest;
    assert(s[0] == ' ');
    text::the_first_character_is_found(s, ':', 0);
    assert(head_of(s)[0] == ' ');
    assert(head_of(s).contains(' '));
}

proof fn lemma_named_head(front: Seq<char>, kind: Seq<char>, marked: Seq<char>, rest: Seq<char>)
    requires
        !front.contains(':'),
        !front.contains(' '),
        kind.len() > 0,
        forall|i: int| 0 <= i < kind.len() ==> kind[i] != ':' && kind[i] != ' ',
        marked =~= kind + seq![':'],
    ensures
        head_of(front + marked + rest) == front + kind,
        !(front + kind).contains(' '),
        kind.is_suffix_of(front + kind),
{
    let s = front + marked + rest;
    let k = front.len() + kind.len();
    text::the_first_character_is_found(s, ':', 0);
    assert(s[k as int] == ':');
    assert forall|j: int| 0 <= j < k implies s[j] != ':' by {
        if j < front.len() {
            assert(s[j] == front[j]);
            assert(front.contains(front[j]));
        } else {
            assert(s[j] == kind[j - front.len()]);
        }
    }
    assert(text::char_from(s, ':', 0) == k);
    assert(s.subrange(0, k as int) =~= front + kind);
    let h = front + kind;
    assert forall|j: int| 0 <= j < h.len() implies h[j] != ' ' by {
        if j < front.len() {
            assert(front.contains(front[j]));
        }
    }
    assert(h.subrange(front.len() as int, h.len() as int) =~= kind);
}

} // verus!
