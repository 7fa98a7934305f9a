//! The check that closes an update: one line is spoken with the updated engine.
//!
//! Whether the update is kept is decided by comparison: what did not work
//! before is not held against it.
use vstd::prelude::*;

use crate::child_process::Ended;
use crate::json::{read_json, JsonDoc, JsonField};
use crate::json;
use crate::reader::to_ascii_lowercase;
use crate::reader;
use crate::redact::truncate_for_log;
use crate::redact;
use crate::text::{
    chars_of, comes_before, decimal_text, ends_with, owned, push_text, same, signed_decimal_text,
    slice_text, starts_with, trim,
};
use crate::text;

verus! {

/// The exit code of a check that ran out of memory on the GPU.
pub const SYNTH_ONCE_OOM: i32 = 2;

/// The exit code of a check that found no GPU.
pub const SYNTH_ONCE_NO_GPU: i32 = 3;

/// How long the check may take, in seconds.
pub const GATE_DEADLINE_SECS: u64 = 600;

/// Below this much free memory on the GPU, in megabytes, a crash is taken for
/// a lack of it.
pub const GATE_VRAM_SUSPECT_MB: u64 = 4096;

/// How the process of the check ended.
#[derive(Clone, Copy, Debug, PartialEq, Eq, Structural)]
pub enum GateExit {
    Code(Option<i32>),
    /// It was stopped: it took too long, or showed no sign of life.
    TimedOut,
}

/// What came of the check.
#[derive(Debug, PartialEq, Eq)]
pub enum GateOutcome {
    /// The line was spoken, in this many milliseconds.
    Passed { ms: u64 },
    /// There is no voice to speak it with.
    NoVoiceRef,
    NoGpu,
    OutOfMemory,
    Failed(String),
    /// The process ended without a word.
    Crashed { code: Option<i32>, vram_free_mb: Option<u64> },
    TimedOut,
}

/// What a `GateOutcome` says.
pub enum Outcome {
    Passed { ms: u64 },
    NoVoiceRef,
    NoGpu,
    OutOfMemory,
    Failed(Seq<char>),
    Crashed { code: Option<i32>, vram_free_mb: Option<u64> },
    TimedOut,
}

impl View for GateOutcome {
    type V = Outcome;

    open spec fn view(&self) -> Outcome {
        match self {
            GateOutcome::Passed { ms } => Outcome::Passed { ms: *ms },
            GateOutcome::NoVoiceRef => Outcome::NoVoiceRef,
            GateOutcome::NoGpu => Outcome::NoGpu,
            GateOutcome::OutOfMemory => Outcome::OutOfMemory,
            GateOutcome::Failed(why) => Outcome::Failed(why@),
            GateOutcome::Crashed { code, vram_free_mb } => Outcome::Crashed {
                code: *code,
                vram_free_mb: *vram_free_mb,
            },
            GateOutcome::TimedOut => Outcome::TimedOut,
        }
    }
}

/// What is said of a failure that gives no reason.
pub const UNKNOWN_FAILURE: &'static str = "理由の分からない失敗";

/// The whole number of that name in a document.
pub open spec fn number_in(d: Option<json::Doc>, key: Seq<char>) -> Option<u64> {
    match d {
        Some(doc) => match json::member(doc, key) {
            Some(json::Field::Unsigned(n)) => Some(n),
            _ => None,
        },
        None => None,
    }
}

/// What came of a check that reported its result.
pub open spec fn reported_outcome(exit: GateExit, d: json::Doc) -> Outcome {
    let ok = json::member(d, "ok"@) == Some(json::Field::Bool(true));
    let bytes = number_in(Some(d), "bytes"@);
    let kind = json::member(d, "kind"@);
    if ok && bytes is Some && bytes->0 > 0 && exit == GateExit::Code(Some(0)) {
        Outcome::Passed {
            ms: (match number_in(Some(d), "ms"@) {
                Some(ms) => ms,
                None => 0,
            }),
        }
    } else if kind == Some(json::Field::Text("oom"@)) {
        Outcome::OutOfMemory
    } else if kind == Some(json::Field::Text("no_gpu"@)) {
        Outcome::NoGpu
    } else {
        Outcome::Failed(
            match json::member(d, "error"@) {
                Some(json::Field::Text(why)) => redact::cut(why),
                _ => UNKNOWN_FAILURE@,
            },
        )
    }
}

/// What came of a check, by how its process ended, what it reported when it
/// began, and what it reported as its result.
pub open spec fn gate_outcome(
    exit: GateExit,
    start: Option<json::Doc>,
    result: Option<json::Doc>,
) -> Outcome {
    match exit {
        GateExit::TimedOut => Outcome::TimedOut,
        GateExit::Code(code) => match result {
            Some(d) => reported_outcome(exit, d),
            None => if code == Some(SYNTH_ONCE_OOM) {
                Outcome::OutOfMemory
            } else if code == Some(SYNTH_ONCE_NO_GPU) {
                Outcome::NoGpu
            } else {
                Outcome::Crashed { code, vram_free_mb: number_in(start, "vram_free_mb"@) }
            },
        },
    }
}

/// What came of a check that reported its result.
fn classify_report(exit: GateExit, result: &JsonDoc) -> (r: GateOutcome)
    ensures
        r@ == reported_outcome(exit, result@),
{
    let ok = match result.boolean("ok") {
        Some(b) => b,
        None => false,
    };
    let bytes: u64 = match result.unsigned("bytes") {
        Some(n) => n,
        None => 0,
    };
    let clean = match exit {
        GateExit::Code(Some(code)) => code == 0,
        _ => false,
    };
    if ok && bytes > 0 && clean {
        let ms: u64 = match result.unsigned("ms") {
            Some(n) => n,
            None => 0,
        };
        return GateOutcome::Passed { ms };
    }
    match result.string("kind") {
        Some(k) => {
            if same(k.as_str(), "oom") {
                return GateOutcome::OutOfMemory;
            }
            if same(k.as_str(), "no_gpu") {
                return GateOutcome::NoGpu;
            }
        },
        None => {},
    }
    match result.string("error") {
        Some(why) => GateOutcome::Failed(truncate_for_log(why.as_str())),
        None => GateOutcome::Failed(owned(UNKNOWN_FAILURE)),
    }
}

/// What came of a check, by how its process ended and what it reported.
pub fn classify_gate(exit: GateExit, start: &Option<JsonDoc>, result: &Option<JsonDoc>) -> (r:
    GateOutcome)
    ensures
        r@ == gate_outcome(exit, json::opt_doc(*start), json::opt_doc(*result)),
{
    match exit {
        GateExit::TimedOut => GateOutcome::TimedOut,
        GateExit::Code(code) => match result {
            Some(d) => classify_report(exit, d),
            None => {
                let vram_free_mb = match start {
                    Some(s) => s.unsigned("vram_free_mb"),
                    None => None,
                };
                match code {
                    Some(c) => {
                        if c == SYNTH_ONCE_OOM {
                            return GateOutcome::OutOfMemory;
                        }
                        if c == SYNTH_ONCE_NO_GPU {
                            return GateOutcome::NoGpu;
                        }
                    },
                    None => {},
                }
                GateOutcome::Crashed { code, vram_free_mb }
            },
        },
    }
}

/// What becomes of the update.
#[derive(Debug, PartialEq, Eq)]
pub enum GateVerdict {
    /// It is kept: the line was spoken, in this many milliseconds.
    Pass(u64),
    /// It is kept, though the check could not be made.
    Skip(String),
    /// It is undone: there was not enough memory on the GPU to check it.
    RollBackForVram(String),
    /// It is undone: it may have broken something.
    RollBack(String),
}

/// What a `GateVerdict` says.
pub enum Verdict {
    Pass(u64),
    Skip(Seq<char>),
    RollBackForVram(Seq<char>),
    RollBack(Seq<char>),
}

impl View for GateVerdict {
    type V = Verdict;

    open spec fn view(&self) -> Verdict {
        match self {
            GateVerdict::Pass(ms) => Verdict::Pass(*ms),
            GateVerdict::Skip(m) => Verdict::Skip(m@),
            GateVerdict::RollBackForVram(m) => Verdict::RollBackForVram(m@),
            GateVerdict::RollBack(m) => Verdict::RollBack(m@),
        }
    }
}

pub const NO_VOICE_TEXT: &'static str =
    "参照音声がまだ無いので、合成は確かめられませんでした（更新は済ませました）";

pub const GPU_LOST_TEXT: &'static str = "更新のあと、GPU（CUDA）が使えなくなりました";

pub const GPU_UNSEEN_TEXT: &'static str =
    "GPU が見えないので、合成は確かめられませんでした（更新は済ませました）";

pub const OUT_OF_MEMORY_TEXT: &'static str =
    "GPU のメモリ（VRAM）が足りず、合成で確かめられませんでした";

/// An exit code as it is told.
pub open spec fn code_text(code: Option<i32>) -> Seq<char> {
    match code {
        Some(c) => "Some("@ + text::signed_decimal(c as int) + ")"@,
        None => "None"@,
    }
}

/// An exit code as it is told.
pub fn describe_code(code: Option<i32>) -> (r: String)
    ensures
        r@ == code_text(code),
{
    match code {
        Some(c) => {
            let mut out = owned("Some(");
            push_text(&mut out, signed_decimal_text(c).as_str());
            push_text(&mut out, ")");
            out
        },
        None => owned("None"),
    }
}

/// What becomes of an update, by what came of the check and whether CUDA could
/// be used before. That there is no GPU counts against the update only where
/// there was one before.
pub open spec fn verdict_of(o: Outcome, cuda_before: Option<bool>) -> Verdict {
    match o {
        Outcome::Passed { ms } => Verdict::Pass(ms),
        Outcome::NoVoiceRef => Verdict::Skip(NO_VOICE_TEXT@),
        Outcome::NoGpu => if cuda_before == Some(true) {
            Verdict::RollBack(GPU_LOST_TEXT@)
        } else {
            Verdict::Skip(GPU_UNSEEN_TEXT@)
        },
        Outcome::OutOfMemory => Verdict::RollBackForVram(OUT_OF_MEMORY_TEXT@),
        Outcome::Crashed { code, vram_free_mb } => if vram_free_mb is Some && vram_free_mb->0
            < GATE_VRAM_SUSPECT_MB {
            Verdict::RollBackForVram(
                "合成の確認の途中で Python が終了しました。始めたときの空き VRAM が "@
                    + text::decimal(vram_free_mb->0 as nat)
                    + " MB で、足りなかったと見られます"@,
            )
        } else {
            Verdict::RollBack(
                "合成の確認の途中で Python が異常終了しました (code "@ + code_text(code) + ")"@,
            )
        },
        Outcome::Failed(why) => Verdict::RollBack(
            "更新したランタイムで合成できませんでした: "@ + why,
        ),
        Outcome::TimedOut => Verdict::RollBack(
            "合成の確認が "@ + text::decimal((GATE_DEADLINE_SECS / 60) as nat)
                + " 分で終わりませんでした"@,
        ),
    }
}

/// What becomes of an update, by what came of the check and whether CUDA could
/// be used before.
pub fn gate_verdict(outcome: &GateOutcome, cuda_before: Option<bool>) -> (r: GateVerdict)
    ensures
        r@ == verdict_of(outcome@, cuda_before),
{
    match outcome {
        GateOutcome::Passed { ms } => GateVerdict::Pass(*ms),
        GateOutcome::NoVoiceRef => GateVerdict::Skip(owned(NO_VOICE_TEXT)),
        GateOutcome::NoGpu => {
            let lost = match cuda_before {
                Some(b) => b,
                None => false,
            };
            if lost {
                GateVerdict::RollBack(owned(GPU_LOST_TEXT))
            } else {
                GateVerdict::Skip(owned(GPU_UNSEEN_TEXT))
            }
        },
        GateOutcome::OutOfMemory => GateVerdict::RollBackForVram(owned(OUT_OF_MEMORY_TEXT)),
        GateOutcome::Crashed { code, vram_free_mb } => {
            match vram_free_mb {
                Some(free) => {
                    if *free < GATE_VRAM_SUSPECT_MB {
                        let mut out = owned(
                            "合成の確認の途中で Python が終了しました。始めたときの空き VRAM が ",
                        );
                        push_text(&mut out, decimal_text(*free).as_str());
                        push_text(&mut out, " MB で、足りなかったと見られます");
                        return GateVerdict::RollBackForVram(out);
                    }
                },
                None => {},
            }
            let mut out = owned(
                "合成の確認の途中で Python が異常終了しました (code ",
            );
            push_text(&mut out, describe_code(*code).as_str());
            push_text(&mut out, ")");
            GateVerdict::RollBack(out)
        },
        GateOutcome::Failed(why) => {
            let mut out = owned("更新したランタイムで合成できませんでした: ");
            push_text(&mut out, why.as_str());
            GateVerdict::RollBack(out)
        },
        GateOutcome::TimedOut => {
            let mut out = owned("合成の確認が ");
            push_text(&mut out, decimal_text(GATE_DEADLINE_SECS / 60).as_str());
            push_text(&mut out, " 分で終わりませんでした");
            GateVerdict::RollBack(out)
        },
    }
}

/// An update that took the GPU away is undone; where there was none before, or
/// that is not known, it is kept.
pub proof fn gpu_is_judged_by_comparison(cuda_before: Option<bool>)
    ensures
        verdict_of(Outcome::NoGpu, cuda_before) is RollBack <==> cuda_before == Some(true),
        verdict_of(Outcome::NoGpu, cuda_before) is Skip <==> cuda_before != Some(true),
{
}

/// An update is kept only where the line was spoken, there is no voice to
/// speak it with, or the check found no GPU that there was not one before.
pub proof fn kept_only_if_not_worse(o: Outcome, cuda_before: Option<bool>)
    ensures
        (verdict_of(o, cuda_before) is Pass || verdict_of(o, cuda_before) is Skip) <==> (
        o is Passed || o is NoVoiceRef || (o is NoGpu && cuda_before != Some(true))),
{
}

/// What is told of an update that was undone, once the check was made again
/// on what is there now.
pub open spec fn explained(err: Seq<char>, again: Outcome) -> Seq<char> {
    match again {
        Outcome::Passed { .. } => err
            + "。元に戻した状態では合成できたので、更新が原因です"@,
        Outcome::OutOfMemory => err
            + "。元に戻した状態でも合成を確かめられませんでした（更新のせいかは分かりません）"@,
        Outcome::Crashed { .. } => err
            + "。元に戻した状態でも合成を確かめられませんでした（更新のせいかは分かりません）"@,
        Outcome::TimedOut => err
            + "。元に戻した状態でも合成を確かめられませんでした（更新のせいかは分かりません）"@,
        Outcome::Failed(why) => err
            + "。元に戻した状態でも合成できませんでした — 更新の前から、この環境では合成できていません（更新のせいではありません）: "@
            + why,
        Outcome::NoVoiceRef => err,
        Outcome::NoGpu => err,
    }
}

/// Adds to the error of an update that was undone what the check, made again,
/// says of whose fault it was.
pub fn explain_after_recheck(err: &str, recheck: &GateOutcome) -> (r: String)
    ensures
        r@ == explained(err@, recheck@),
{
    let mut out = owned(err);
    match recheck {
        GateOutcome::Passed { .. } => {
            push_text(
                &mut out,
                "。元に戻した状態では合成できたので、更新が原因です",
            );
        },
        GateOutcome::OutOfMemory | GateOutcome::Crashed { .. } | GateOutcome::TimedOut => {
            push_text(
                &mut out,
                "。元に戻した状態でも合成を確かめられませんでした（更新のせいかは分かりません）",
            );
        },
        GateOutcome::Failed(why) => {
            push_text(
                &mut out,
                "。元に戻した状態でも合成できませんでした — 更新の前から、この環境では合成できていません（更新のせいではありません）: ",
            );
            push_text(&mut out, why.as_str());
        },
        GateOutcome::NoVoiceRef | GateOutcome::NoGpu => {},
    }
    out
}

/// What begins the line that the check reports when it begins.
pub const START_MARK: &'static str = "UGG_SYNTH_ONCE_START";

/// What begins the line that the check reports as its result.
pub const RESULT_MARK: &'static str = "UGG_SYNTH_ONCE";

/// What begins the line that says whether CUDA can be used.
pub const CUDA_MARK: &'static str = "UGG_CUDA";

/// What stands behind a mark that begins the line.
pub open spec fn behind(line: Seq<char>, mark: Seq<char>) -> Option<Seq<char>> {
    if mark.is_prefix_of(line) {
        Some(text::trimmed(line.skip(mark.len() as int)))
    } else {
        None
    }
}

/// What stands behind a mark that begins the line, without white space at its
/// ends.
fn after_mark(line: &str, mark: &str) -> (r: Option<String>)
    ensures
        text::opt_text(r) == behind(line@, mark@),
{
    if !starts_with(line, mark) {
        return None;
    }
    let cs = chars_of(line);
    let ms = chars_of(mark);
    let rest = slice_text(&cs, ms.len(), cs.len());
    assert(rest@ =~= line@.skip(mark@.len() as int));
    Some(trim(rest.as_str()))
}

/// What a line of the check's output is.
#[derive(Debug, PartialEq, Eq)]
pub enum GateLine {
    Start(Option<JsonDoc>),
    Result(Option<JsonDoc>),
    Show,
    Ignore,
}

/// Sorts a line of the check's output: the two reports, lines to be shown, and
/// progress that was written over. The mark of the first report begins with
/// that of the second, so it is looked for first.
pub fn gate_line(line: &str, overwritten: bool) -> (r: GateLine)
    ensures
        (match (behind(line@, START_MARK@), behind(line@, RESULT_MARK@)) {
            (Some(t), _) => r matches GateLine::Start(d) && json::opt_doc(d) == json::json_document(t),
            (None, Some(t)) => r matches GateLine::Result(d) && json::opt_doc(d)
                == json::json_document(t),
            (None, None) => r == (if overwritten {
                GateLine::Ignore
            } else {
                GateLine::Show
            }),
        }),
{
    match after_mark(line, START_MARK) {
        Some(t) => GateLine::Start(read_json(t.as_str())),
        None => match after_mark(line, RESULT_MARK) {
            Some(t) => GateLine::Result(read_json(t.as_str())),
            None => {
                if overwritten {
                    GateLine::Ignore
                } else {
                    GateLine::Show
                }
            },
        },
    }
}

/// What the check has reported so far.
#[derive(Debug, PartialEq, Eq)]
pub struct GateRun {
    pub start: Option<JsonDoc>,
    pub result: Option<JsonDoc>,
}

/// What a `GateRun` says.
pub struct Reported {
    pub start: Option<json::Doc>,
    pub result: Option<json::Doc>,
}

impl View for GateRun {
    type V = Reported;

    open spec fn view(&self) -> Reported {
        Reported { start: json::opt_doc(self.start), result: json::opt_doc(self.result) }
    }
}

/// What the check has reported after one more line of its output: of either
/// report the last one counts.
pub open spec fn reported_after(r: Reported, line: Seq<char>) -> Reported {
    match (behind(line, START_MARK@), behind(line, RESULT_MARK@)) {
        (Some(t), _) => Reported { start: json::json_document(t), ..r },
        (None, Some(t)) => Reported { result: json::json_document(t), ..r },
        (None, None) => r,
    }
}

/// The line is shown: it is no report, and was not written over.
pub open spec fn is_shown(line: Seq<char>, overwritten: bool) -> bool {
    !overwritten && behind(line, START_MARK@) is None && behind(line, RESULT_MARK@) is None
}

impl GateRun {
    /// A check that has reported nothing.
    pub fn new() -> (r: Self)
        ensures
            r@ == (Reported { start: None, result: None }),
    {
        GateRun { start: None, result: None }
    }

    /// Takes a line of the check's output, and says whether it is shown.
    pub fn on_line(&mut self, line: &str, overwritten: bool) -> (r: bool)
        ensures
            final(self)@ == reported_after(old(self)@, line@),
            r == is_shown(line@, overwritten),
    {
        match gate_line(line, overwritten) {
            GateLine::Start(d) => {
                self.start = d;
                false
            },
            GateLine::Result(d) => {
                self.result = d;
                false
            },
            GateLine::Show => true,
            GateLine::Ignore => false,
        }
    }

    /// What came of the check, now that its process has ended.
    pub fn finish(&self, ended: Ended, code: Option<i32>) -> (r: GateOutcome)
        ensures
            r@ == gate_outcome(exit_of(ended, code), self@.start, self@.result),
    {
        classify_gate(gate_exit(ended, code), &self.start, &self.result)
    }
}

/// The outcome of a check whose voice could not be copied.
pub fn voice_not_copied(why: &str) -> (r: GateOutcome)
    ensures
        r@ == Outcome::Failed("参照音声を作業場所へ写せません: "@ + why@),
{
    let mut out = owned("参照音声を作業場所へ写せません: ");
    push_text(&mut out, why);
    GateOutcome::Failed(out)
}

/// The outcome of a check that could not be started.
pub fn gate_not_started(why: &str) -> (r: GateOutcome)
    ensures
        r@ == Outcome::Failed("python 起動失敗: "@ + why@),
{
    let mut out = owned("python 起動失敗: ");
    push_text(&mut out, why);
    GateOutcome::Failed(out)
}

/// What a line says of CUDA, where it says something: whether it can be used,
/// or nothing that can be read.
pub open spec fn cuda_said(line: Seq<char>) -> Option<Option<bool>> {
    match behind(line, CUDA_MARK@) {
        None => None,
        Some(t) => Some(
            match json::json_document(t) {
                Some(json::Doc::Plain(json::Field::Bool(b))) => Some(b),
                _ => None,
            },
        ),
    }
}

/// What the last of the first `n` lines that says something of CUDA says.
pub open spec fn last_cuda_said(l: Seq<Seq<char>>, n: int) -> Option<bool>
    decreases n,
{
    if n <= 0 {
        None
    } else {
        match cuda_said(l[n - 1]) {
            Some(b) => b,
            None => last_cuda_said(l, n - 1),
        }
    }
}

/// Whether CUDA can be used, by what Python wrote; nothing where that cannot be
/// told.
pub fn probe_cuda(lines: &Vec<String>) -> (r: Option<bool>)
    ensures
        r == last_cuda_said(text::texts(lines@), lines@.len() as int),
{
    let ghost l = text::texts(lines@);
    let mut i: usize = lines.len();
    while i > 0
        invariant
            i <= lines@.len(),
            l == text::texts(lines@),
            last_cuda_said(l, lines@.len() as int) == last_cuda_said(l, i as int),
        decreases i,
    {
        i -= 1;
        assert(l[i as int] == lines@[i as int]@);
        match cuda_line(lines[i].as_str()) {
            Some(b) => {
                return b;
            },
            None => {},
        }
    }
    None
}

/// What a line says of CUDA.
pub fn cuda_line(line: &str) -> (r: Option<Option<bool>>)
    ensures
        r == cuda_said(line@),
{
    match after_mark(line, CUDA_MARK) {
        None => None,
        Some(t) => match read_json(t.as_str()) {
            Some(JsonDoc::Plain(JsonField::Bool(b))) => Some(Some(b)),
            _ => Some(None),
        },
    }
}

/// A file among the voices.
#[derive(Debug, PartialEq, Eq)]
pub struct VoiceFile {
    pub name: String,
    pub is_file: bool,
    /// When it was changed last, in nanoseconds relative to the epoch, where
    /// that can be told.
    pub modified: Option<i128>,
}

/// The file can be used as a voice.
pub open spec fn is_voice(f: VoiceFile) -> bool {
    &&& f.is_file
    &&& f.modified is Some
    &&& ".wav"@.is_suffix_of(reader::in_ascii_lower(f.name@))
}

/// Voices of the main character come first, then those of the other one.
pub open spec fn voice_rank(name: Seq<char>) -> int {
    if "main_"@.is_prefix_of(name) {
        0
    } else if "sub_"@.is_prefix_of(name) {
        1
    } else {
        2
    }
}

/// The first voice is taken rather than the second: by rank, among equals the
/// newer one, and among those the one whose name comes first.
pub open spec fn preferred(a: VoiceFile, b: VoiceFile) -> bool {
    let ra = voice_rank(a.name@);
    let rb = voice_rank(b.name@);
    ra < rb || (ra == rb && (a.modified->0 > b.modified->0 || (a.modified->0 == b.modified->0
        && text::precedes(a.name@, b.name@))))
}

proof fn lemma_preferred(a: VoiceFile, b: VoiceFile, c: VoiceFile)
    ensures
        preferred(a, b) && preferred(b, c) ==> preferred(a, c),
        preferred(a, b) && !preferred(c, b) ==> preferred(a, c),
{
    if preferred(a, b) && preferred(b, c) && text::precedes(a.name@, b.name@) && text::precedes(
        b.name@,
        c.name@,
    ) {
        text::lemma_precedes_transitive(a.name@, b.name@, c.name@);
    }
    if preferred(a, b) && !preferred(c, b) {
        text::lemma_precedes_total(c.name@, b.name@);
        if text::precedes(a.name@, b.name@) && text::precedes(b.name@, c.name@) {
            text::lemma_precedes_transitive(a.name@, b.name@, c.name@);
        }
    }
}

/// The rank of a voice by its name.
fn rank_of(name: &str) -> (r: u8)
    ensures
        r as int == voice_rank(name@),
{
    if starts_with(name, "main_") {
        0
    } else if starts_with(name, "sub_") {
        1
    } else {
        2
    }
}

/// Whether the first voice is taken rather than the second.
fn prefer(a: &VoiceFile, b: &VoiceFile) -> (r: bool)
    requires
        a.modified is Some,
        b.modified is Some,
    ensures
        r == preferred(*a, *b),
{
    let ra = rank_of(a.name.as_str());
    let rb = rank_of(b.name.as_str());
    if ra != rb {
        return ra < rb;
    }
    match (a.modified, b.modified) {
        (Some(ta), Some(tb)) => {
            if ta != tb {
                return ta > tb;
            }
            comes_before(a.name.as_str(), b.name.as_str())
        },
        _ => false,
    }
}

/// The voice that the check speaks with: of those that there are the most
/// preferred one.
pub fn pick_gate_voice_ref(files: &Vec<VoiceFile>) -> (r: Option<usize>)
    ensures
        r is None <==> forall|j: int| 0 <= j < files@.len() ==> !is_voice(#[trigger] files@[j]),
        r matches Some(i) ==> {
            &&& i < files@.len()
            &&& is_voice(files@[i as int])
            &&& forall|j: int|
                0 <= j < i && is_voice(#[trigger] files@[j]) ==> preferred(
                    files@[i as int],
                    files@[j],
                )
            &&& forall|j: int|
                i < j < files@.len() && is_voice(#[trigger] files@[j]) ==> !preferred(
                    files@[j],
                    files@[i as int],
                )
        },
{
    let mut best: Option<usize> = None;
    let mut k: usize = 0;
    while k < files.len()
        invariant
            k <= files@.len(),
            best is None <==> forall|j: int| 0 <= j < k ==> !is_voice(#[trigger] files@[j]),
            best matches Some(i) ==> {
                &&& i < k
                &&& is_voice(files@[i as int])
                &&& forall|j: int|
                    0 <= j < i && is_voice(#[trigger] files@[j]) ==> preferred(
                        files@[i as int],
                        files@[j],
                    )
                &&& forall|j: int|
                    i < j < k && is_voice(#[trigger] files@[j]) ==> !preferred(
                        files@[j],
                        files@[i as int],
                    )
            },
        decreases files@.len() - k,
    {
        let f = &files[k];
        let lower = to_ascii_lowercase(f.name.as_str());
        if f.is_file && f.modified.is_some() && ends_with(lower.as_str(), ".wav") {
            assert(is_voice(files@[k as int]));
            match best {
                None => {
                    best = Some(k);
                },
                Some(i) => {
                    if prefer(f, &files[i]) {
                        proof {
                            assert forall|j: int| 0 <= j < k && is_voice(#[trigger] files@[j]) implies
                                preferred(files@[k as int], files@[j]) by {
                                lemma_preferred(files@[k as int], files@[i as int], files@[j]);
                            }
                        }
                        best = Some(k);
                    }
                },
            }
        }
        k += 1;
    }
    best
}

/// How the check ended: one that was stopped, for whatever reason, did not end
/// in time.
pub open spec fn exit_of(ended: Ended, code: Option<i32>) -> GateExit {
    if ended == Ended::Exited {
        GateExit::Code(code)
    } else {
        GateExit::TimedOut
    }
}

/// How the check ended.
pub fn gate_exit(ended: Ended, code: Option<i32>) -> (r: GateExit)
    ensures
        r == exit_of(ended, code),
{
    match ended {
        Ended::Exited => GateExit::Code(code),
        Ended::Stalled => GateExit::TimedOut,
        Ended::TimedOut => GateExit::TimedOut,
    }
}

/// The arguments that the check is run with.
pub fn gate_args(sidecar: &str, root: &str, voice: &str, models: &Vec<String>) -> (r: Vec<String>)
    ensures
        text::texts(r@) == seq![
            sidecar@,
            "--asset-dir"@,
            root@,
            "--synth-once"@,
            "--voice-ref"@,
            voice@,
        ] + text::texts(models@),
{
    let mut out: Vec<String> = Vec::new();
    out.push(owned(sidecar));
    out.push(owned("--asset-dir"));
    out.push(owned(root));
    out.push(owned("--synth-once"));
    out.push(owned("--voice-ref"));
    out.push(owned(voice));
    let ghost front = seq![
        sidecar@,
        "--asset-dir"@,
        root@,
        "--synth-once"@,
        "--voice-ref"@,
        voice@,
    ];
    assert(text::texts(out@) =~= front);
    let ghost a = out@;
    let mut more = text::copy_names(models);
    let ghost m = more@;
    out.append(&mut more);
    assert(out@ =~= a + m);
    assert(text::texts(out@) =~= front + text::texts(m));
    out
}

/// What Python is asked whether CUDA can be used with.
pub const CUDA_SCRIPT: &'static str =
    "import json,torch\nprint(\"UGG_CUDA \"+json.dumps(bool(torch.cuda.is_available())))";

/// A check that reported something passed exactly where it said so, made some sound and
/// ended with the code zero; it then took as long as it says. Else it was short of
/// memory, or saw no GPU, where it says that; and else it failed, with its reason.
pub proof fn passed_iff_sound_was_made(exit: GateExit, d: json::Doc)
    ensures
        reported_outcome(exit, d) is Passed <==> json::member(d, "ok"@) == Some(
            json::Field::Bool(true),
        ) && (json::member(d, "bytes"@) matches Some(json::Field::Unsigned(n)) && n > 0) && exit
            == GateExit::Code(Some(0)),
        (reported_outcome(exit, d) is Passed && (json::member(d, "ms"@) matches Some(
            json::Field::Unsigned(ms),
        ))) ==> reported_outcome(exit, d)->ms == json::member(d, "ms"@)->0->Unsigned_0,
        !(reported_outcome(exit, d) is Passed) && json::member(d, "kind"@) == Some(
            json::Field::Text("oom"@),
        ) ==> reported_outcome(exit, d) == Outcome::OutOfMemory,
        !(reported_outcome(exit, d) is Passed) && json::member(d, "kind"@) == Some(
            json::Field::Text("no_gpu"@),
        ) ==> reported_outcome(exit, d) == Outcome::NoGpu,
        !(reported_outcome(exit, d) is Passed) && json::member(d, "kind"@) != Some(
            json::Field::Text("oom"@),
        ) && json::member(d, "kind"@) != Some(json::Field::Text("no_gpu"@))
            ==> reported_outcome(exit, d) is Failed,
        (!(reported_outcome(exit, d) is Passed) && json::member(d, "kind"@) is None && (json::member(
            d,
            "error"@,
        ) matches Some(json::Field::Text(why)) && why.len() <= 300)) ==> reported_outcome(exit, d)
            == Outcome::Failed(json::member(d, "error"@)->0->Text_0),
{
    reveal_strlit("oom");
    reveal_strlit("no_gpu");
    assert("oom"@.len() == 3);
    assert("no_gpu"@.len() == 6);
}

/// A check that was stopped timed out, whatever it had said. One that ended without a
/// report was short of memory or saw no GPU by its code; by any other code it crashed,
/// with the memory that was free when it began.
pub proof fn what_a_check_came_to(
    exit: GateExit,
    start: Option<json::Doc>,
    result: Option<json::Doc>,
)
    ensures
        exit is TimedOut ==> gate_outcome(exit, start, result) == Outcome::TimedOut,
        exit is Code && result is Some ==> gate_outcome(exit, start, result) == reported_outcome(
            exit,
            result->0,
        ),
        exit == GateExit::Code(Some(2)) && result is None ==> gate_outcome(exit, start, result)
            == Outcome::OutOfMemory,
        exit == GateExit::Code(Some(3)) && result is None ==> gate_outcome(exit, start, result)
            == Outcome::NoGpu,
        exit is Code && exit != GateExit::Code(Some(2)) && exit != GateExit::Code(Some(3))
            && result is None ==> (gate_outcome(exit, start, result) matches Outcome::Crashed {
            code,
            vram_free_mb,
        } && exit == GateExit::Code(code) && vram_free_mb == number_in(start, "vram_free_mb"@)),
{
}

/// An update is undone for want of memory exactly where the check said that there was
/// too little, or crashed with less than four gigabytes free; a check that passed keeps
/// it, with its time.
pub proof fn undone_for_want_of_memory(o: Outcome, cuda_before: Option<bool>)
    ensures
        verdict_of(o, cuda_before) is RollBackForVram <==> o is OutOfMemory || (
        o matches Outcome::Crashed { code, vram_free_mb } && vram_free_mb is Some && vram_free_mb->0
            < 4096),
        o matches Outcome::Passed { ms } ==> verdict_of(o, cuda_before) == Verdict::Pass(ms),
{
}

/// Of the lines that tell of CUDA the last one counts; where none does, it is not known.
pub proof fn the_last_word_on_cuda_counts(l: Seq<Seq<char>>, n: int, k: int)
    requires
        0 <= n <= l.len(),
    ensures
        0 <= k < n && cuda_said(l[k]) is Some && (forall|i: int|
            k < i < n ==> cuda_said(#[trigger] l[i]) is None) ==> last_cuda_said(l, n) == cuda_said(
            l[k],
        )->0,
        (forall|i: int| 0 <= i < n ==> cuda_said(#[trigger] l[i]) is None) ==> last_cuda_said(
            l,
            n,
        ) is None,
    decreases n,
{
    if n > 0 {
        the_last_word_on_cuda_counts(l, n - 1, k);
        if 0 <= k < n - 1 && (forall|i: int| k < i < n ==> cuda_said(#[trigger] l[i]) is None) {
            assert(cuda_said(l[n - 1]) is None);
        }
        if forall|i: int| 0 <= i < n ==> cuda_said(#[trigger] l[i]) is None {
            assert(cuda_said(l[n - 1]) is None);
        }
    }
}

/// What stands behind a mark is found, without white space at its ends, where a line
/// begins with the mark, and only there.
pub proof fn marks_stand_at_the_front(mark: Seq<char>, rest: Seq<char>, line: Seq<char>)
    ensures
        behind(mark + rest, mark) == Some(text::trimmed(rest)),
        !mark.is_prefix_of(line) ==> behind(line, mark) is None,
{
    assert((mark + rest).skip(mark.len() as int) =~= rest);
    assert((mark + rest).take(mark.len() as int) =~= mark);
}

/// What a check reports is what its last marked lines say: the start and the result each
/// stand until they are told again, and no other line changes them.
pub proof fn reports_stand_until_told_again(r: Reported, line: Seq<char>)
    ensures
        behind(line, "UGG_SYNTH_ONCE_START"@) is Some ==> reported_after(r, line).start
            == json::json_document(behind(line, "UGG_SYNTH_ONCE_START"@)->0) && reported_after(
            r,
            line,
        ).result == r.result,
        behind(line, "UGG_SYNTH_ONCE_START"@) is None && behind(line, "UGG_SYNTH_ONCE"@) is Some
            ==> reported_after(r, line).result == json::json_document(
            behind(line, "UGG_SYNTH_ONCE"@)->0,
        ) && reported_after(r, line).start == r.start,
        behind(line, "UGG_SYNTH_ONCE_START"@) is None && behind(line, "UGG_SYNTH_ONCE"@) is None
            ==> reported_after(r, line) == r,
{
}

/// A voice of the main slot is preferred to one of the other, and that to any other file;
/// among those of one kind the one that was changed last, and of two that were changed
/// at once the first by name. No voice is preferred to itself, and of two different
/// names one is preferred.
pub proof fn the_latest_main_voice_is_preferred(a: VoiceFile, b: VoiceFile)
    requires
        a.modified is Some,
        b.modified is Some,
    ensures
        "main_"@.is_prefix_of(a.name@) && !"main_"@.is_prefix_of(b.name@) ==> preferred(a, b)
            && !preferred(b, a),
        !"main_"@.is_prefix_of(a.name@) && "sub_"@.is_prefix_of(a.name@) && !"main_"@.is_prefix_of(
            b.name@,
        ) && !"sub_"@.is_prefix_of(b.name@) ==> preferred(a, b) && !preferred(b, a),
        "main_"@.is_prefix_of(a.name@) && "main_"@.is_prefix_of(b.name@) && a.modified->0
            > b.modified->0 ==> preferred(a, b) && !preferred(b, a),
        !preferred(a, a),
        a.name@ != b.name@ ==> preferred(a, b) || preferred(b, a),
        preferred(a, b) ==> !preferred(b, a),
{
    text::lemma_precedes_irreflexive(a.name@);
    text::lemma_precedes_total(a.name@, b.name@);
    if text::precedes(a.name@, b.name@) && text::precedes(b.name@, a.name@) {
        text::lemma_precedes_transitive(a.name@, b.name@, a.name@);
    }
}

/// What an update failed with is told whatever a second check came to; that the update is
/// to blame is told exactly where the second check passed, and where it failed, why.
pub proof fn a_second_check_tells_who_is_to_blame(err: Seq<char>, again: Outcome)
    ensures
        err.is_prefix_of(explained(err, again)),
        again is Passed <==> explained(err, again) == err
            + "。元に戻した状態では合成できたので、更新が原因です"@,
        again matches Outcome::Failed(why) ==> why.is_suffix_of(explained(err, again)),
        explained(err, again) == err <==> again is NoVoiceRef || again is NoGpu,
{
    reveal_strlit("。元に戻した状態では合成できたので、更新が原因です");
    reveal_strlit("。元に戻した状態でも合成を確かめられませんでした（更新のせいかは分かりません）");
    reveal_strlit(
        "。元に戻した状態でも合成できませんでした — 更新の前から、この環境では合成できていません（更新のせいではありません）: ",
    );
    let r = explained(err, again);
    let p = "。元に戻した状態では合成できたので、更新が原因です"@;
    assert(r.take(err.len() as int) =~= err);
    let n = err.len() as int;
    assert((err + p)[n + 8] == p[8]);
    assert((err + p).len() == n + p.len());
    if !(again is Passed) && r.len() > n + 8 {
        assert(r[n + 8] == r.skip(n)[8]);
    }
    if let Outcome::Failed(why) = again {
        assert(r.subrange(r.len() - why.len(), r.len() as int) =~= why);
    }
}

} // verus!
