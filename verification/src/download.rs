//! Fetching the files of the VOICEVOX core with its official downloader: how
//! that is run, what is read of its output, and what a failed run is told as.
use vstd::prelude::*;

use crate::child_process::{Ended, Stream};
use crate::gate::describe_code;
use crate::gate;
use crate::paths::{has_entry, AssetPath};
use crate::paths;
use crate::reader::to_ascii_lowercase;
use crate::reader;
use crate::text::{
    contains_text, decimal_text, owned, push_text, same, starts_with, trim,
};
use crate::text;
use crate::voice_ref::file_stem;
use crate::voice_ref;

verus! {

/// The version of the C interface that is called.
pub const CAPI_VERSION: &'static str = "0.16.4";

/// Where the downloader comes from.
pub const DOWNLOADER_URL: &'static str =
    "https://github.com/VOICEVOX/voicevox_core/releases/download/0.16.4/download-windows-x64.exe";

/// The time without any sign of life after which the downloader is stopped, in
/// seconds.
pub const DOWNLOADER_STALL_AFTER: u64 = 5 * 60;

/// What the downloader is told on its input: that the terms are agreed to.
pub const AGREEMENT: &'static str = "y\ny\ny\ny\ny\n";

pub const RATE_LIMITED: &'static str =
    "GitHub API のレート制限に達しました。1 時間ほど待つか、設定の GitHub PAT を入れて再試行してください";

/// Where the downloader is kept.
pub fn downloader_path(asset_dir: &AssetPath) -> (r: AssetPath)
    ensures
        r@ == paths::below(asset_dir@, "voicevox-downloader.exe"@),
{
    asset_dir.join("voicevox-downloader.exe")
}

/// The arguments of the downloader: everything for the processor alone, and of
/// the voices only those that talk.
pub fn downloader_args(asset_dir: &str) -> (r: Vec<String>)
    ensures
        text::texts(r@) == seq![
            "-o"@,
            asset_dir@,
            "--c-api-version"@,
            CAPI_VERSION@,
            "--devices"@,
            "cpu"@,
            "--exclude"@,
            "additional-libraries"@,
            "--models-pattern"@,
            "[0-9]*.vvm"@,
        ],
{
    let mut out: Vec<String> = Vec::new();
    out.push(owned("-o"));
    out.push(owned(asset_dir));
    out.push(owned("--c-api-version"));
    out.push(owned(CAPI_VERSION));
    out.push(owned("--devices"));
    out.push(owned("cpu"));
    out.push(owned("--exclude"));
    out.push(owned("additional-libraries"));
    out.push(owned("--models-pattern"));
    out.push(owned("[0-9]*.vvm"));
    assert(text::texts(out@) =~= seq![
        "-o"@,
        asset_dir@,
        "--c-api-version"@,
        CAPI_VERSION@,
        "--devices"@,
        "cpu"@,
        "--exclude"@,
        "additional-libraries"@,
        "--models-pattern"@,
        "[0-9]*.vvm"@,
    ]);
    out
}

/// The token that the downloader is given, where there is one.
pub fn token_for(gh_token: Option<&str>) -> (r: Option<String>)
    ensures
        text::opt_text(r) == (match gh_token {
            Some(t) => if text::is_blank(t@) {
                None
            } else {
                Some(text::trimmed(t@))
            },
            None => None,
        }),
{
    match gh_token {
        None => None,
        Some(t) => {
            let cut = trim(t);
            proof {
                text::lemma_trimmed_blank(t@);
            }
            if cut.as_str().is_empty() {
                None
            } else {
                Some(cut)
            }
        },
    }
}

/// What was read of the downloader's output.
#[derive(Debug, PartialEq, Eq)]
pub struct DownloaderOutput {
    /// It said that too much was asked of GitHub.
    pub rate_limited: bool,
    /// The first error that it named.
    pub detected: Option<String>,
}

/// What a `DownloaderOutput` says.
pub struct Heard {
    pub rate_limited: bool,
    pub detected: Option<Seq<char>>,
}

impl View for DownloaderOutput {
    type V = Heard;

    open spec fn view(&self) -> Heard {
        Heard { rate_limited: self.rate_limited, detected: text::opt_text(self.detected) }
    }
}

/// What was read once one more line came. Only the error output is looked at.
pub open spec fn heard_after(h: Heard, stream: Stream, line: Seq<char>) -> Heard {
    if stream != Stream::Stderr {
        h
    } else if text::has_text(line, "API rate limit exceeded"@) {
        Heard { rate_limited: true, detected: h.detected }
    } else if h.detected is None && "Error:"@.is_prefix_of(line) {
        Heard { rate_limited: h.rate_limited, detected: Some(line) }
    } else {
        h
    }
}

/// What a run that failed is told as; `None` where it did not. What was read
/// before it was stopped is kept.
pub open spec fn download_failure(h: Heard, ended: Ended, code: Option<i32>) -> Option<Seq<char>> {
    if ended == Ended::Exited {
        if code == Some(0i32) {
            None
        } else if h.rate_limited {
            Some(RATE_LIMITED@)
        } else {
            match h.detected {
                Some(d) => Some(d),
                None => Some(
                    "ダウンローダが異常終了しました (コード "@ + gate::code_text(code) + ")"@,
                ),
            }
        }
    } else {
        Some(
            DOWNLOADER_STALLED@ + (if h.rate_limited {
                "（"@ + RATE_LIMITED@ + "）"@
            } else {
                match h.detected {
                    Some(d) => "（直前の出力: "@ + d + "）"@,
                    None => Seq::empty(),
                }
            }),
        )
    }
}

pub const DOWNLOADER_STALLED: &'static str =
    "ダウンローダが 5 分間、出力も読み書きもしないまま止まっていたので中断しました";

impl DownloaderOutput {
    /// Nothing was read.
    pub fn new() -> (r: Self)
        ensures
            r@ == (Heard { rate_limited: false, detected: None }),
    {
        DownloaderOutput { rate_limited: false, detected: None }
    }

    /// A line came; says whether it is passed on.
    pub fn on_line(&mut self, stream: Stream, line: &str) -> (r: bool)
        ensures
            r == (stream == Stream::Stderr),
            final(self)@ == heard_after(old(self)@, stream, line@),
    {
        if stream != Stream::Stderr {
            return false;
        }
        if contains_text(line, "API rate limit exceeded") {
            self.rate_limited = true;
        } else if self.detected.is_none() && starts_with(line, "Error:") {
            self.detected = Some(owned(line));
        }
        true
    }

    /// The run is over; says what it failed of. It has no deadline.
    pub fn finish(&self, ended: Ended, code: Option<i32>) -> (r: Option<String>)
        requires
            ended != Ended::TimedOut,
        ensures
            text::opt_text(r) == download_failure(self@, ended, code),
    {
        if ended == Ended::Exited {
            match code {
                Some(c) => {
                    if c == 0 {
                        return None;
                    }
                },
                None => {},
            }
            if self.rate_limited {
                return Some(owned(RATE_LIMITED));
            }
            return match &self.detected {
                Some(d) => Some(owned(d.as_str())),
                None => {
                    let mut out = owned("ダウンローダが異常終了しました (コード ");
                    push_text(&mut out, describe_code(code).as_str());
                    push_text(&mut out, ")");
                    Some(out)
                },
            };
        }
        let mut out = owned(DOWNLOADER_STALLED);
        if self.rate_limited {
            push_text(&mut out, "（");
            push_text(&mut out, RATE_LIMITED);
            push_text(&mut out, "）");
            assert(out@ =~= DOWNLOADER_STALLED@ + ("（"@ + RATE_LIMITED@ + "）"@));
        } else {
            match &self.detected {
                Some(d) => {
                    push_text(&mut out, "（直前の出力: ");
                    push_text(&mut out, d.as_str());
                    push_text(&mut out, "）");
                    assert(out@ =~= DOWNLOADER_STALLED@ + ("（直前の出力: "@ + d@ + "）"@));
                },
                None => {
                    assert(out@ =~= DOWNLOADER_STALLED@ + Seq::<char>::empty());
                },
            }
        }
        Some(out)
    }
}

/// A library that may be in use, in whatever case its name is written.
pub open spec fn is_library(name: Seq<char>) -> bool {
    reader::in_ascii_lower(name) == "voicevox_core.dll"@ || reader::in_ascii_lower(name)
        == "voicevox_onnxruntime.dll"@
}

/// Whether a file is a library that may be in use.
pub fn is_locked_candidate(name: &str) -> (r: bool)
    ensures
        r == is_library(name@),
{
    let l = to_ascii_lowercase(name);
    same(l.as_str(), "voicevox_core.dll") || same(l.as_str(), "voicevox_onnxruntime.dll")
}

/// How many names are tried to move a library out of the way.
pub const STASH_TRIES: u32 = 100;

/// The name under which a library is moved out of the way.
pub open spec fn stash_name(name: Seq<char>, i: int) -> Seq<char> {
    voice_ref::stem_of(name) + ".dll.old-"@ + text::decimal(i as nat)
}

/// The first of the names, from the `i`-th on, that is not taken.
pub open spec fn free_stash(name: Seq<char>, taken: Seq<Seq<char>>, i: int) -> Option<Seq<char>>
    decreases STASH_TRIES - i,
{
    if i >= STASH_TRIES {
        None
    } else if !paths::holds_entry(taken, stash_name(name, i)) {
        Some(stash_name(name, i))
    } else {
        free_stash(name, taken, i + 1)
    }
}

/// The name under which a library in use is moved out of the way: the first
/// that is not taken in its directory, in whatever case.
pub fn stash_target(name: &str, taken: &Vec<String>) -> (r: Option<String>)
    ensures
        text::opt_text(r) == free_stash(name@, text::texts(taken@), 0),
{
    let stem = file_stem(name);
    let mut i: u32 = 0;
    while i < STASH_TRIES
        invariant
            i <= STASH_TRIES,
            stem@ == voice_ref::stem_of(name@),
            free_stash(name@, text::texts(taken@), 0) == free_stash(
                name@,
                text::texts(taken@),
                i as int,
            ),
        decreases STASH_TRIES - i,
    {
        let mut out = owned(stem.as_str());
        push_text(&mut out, ".dll.old-");
        push_text(&mut out, decimal_text(i as u64).as_str());
        assert(out@ == stash_name(name@, i as int));
        if !has_entry(taken, out.as_str()) {
            return Some(out);
        }
        i += 1;
    }
    None
}

/// A line of the downloader, as it comes.
pub struct Uttered {
    pub stream: Stream,
    pub text: Seq<char>,
}

/// What is known after the first `n` lines.
pub open spec fn heard_run(h: Heard, l: Seq<Uttered>, n: int) -> Heard
    decreases n,
{
    if n <= 0 {
        h
    } else {
        heard_after(heard_run(h, l, n - 1), l[n - 1].stream, l[n - 1].text)
    }
}

/// The line says that too much was asked of GitHub.
pub open spec fn says_limit(x: Uttered) -> bool {
    x.stream == Stream::Stderr && text::has_text(x.text, "API rate limit exceeded"@)
}

/// The line names an error.
pub open spec fn names_error(x: Uttered) -> bool {
    x.stream == Stream::Stderr && !text::has_text(x.text, "API rate limit exceeded"@)
        && "Error:"@.is_prefix_of(x.text)
}

/// What the downloader writes to its error output is remembered: that too much was
/// asked of GitHub, wherever it says so, and the first error that it names.
pub proof fn the_first_error_is_remembered(l: Seq<Uttered>, n: int, k: int)
    requires
        0 <= n <= l.len(),
    ensures
        ({
            let h = heard_run(Heard { rate_limited: false, detected: None }, l, n);
            &&& h.rate_limited <==> exists|i: int| 0 <= i < n && says_limit(#[trigger] l[i])
            &&& 0 <= k < n && names_error(l[k]) && (forall|i: int|
                0 <= i < k ==> !names_error(#[trigger] l[i])) ==> h.detected == Some(l[k].text)
            &&& (forall|i: int| 0 <= i < n ==> !names_error(#[trigger] l[i])) <==> h.detected is None
        }),
    decreases n,
{
    if n > 0 {
        the_first_error_is_remembered(l, n - 1, k);
        let h = heard_run(Heard { rate_limited: false, detected: None }, l, n - 1);
        if h.rate_limited {
            let i = choose|i: int| 0 <= i < n - 1 && says_limit(#[trigger] l[i]);
            assert(says_limit(l[i]));
        }
        if says_limit(l[n - 1]) {
            assert(says_limit(l[n - 1]));
        }
        if 0 <= k < n - 1 && names_error(l[k]) {
            assert(!(forall|i: int| 0 <= i < n - 1 ==> !names_error(#[trigger] l[i])));
        }
    }
}

/// A download succeeded exactly where the downloader ended by itself with the code
/// zero. Else it is told why: that too much was asked of GitHub before anything else,
/// then the error that was named.
pub proof fn a_download_fails_unless_it_ends_with_zero(h: Heard, ended: Ended, code: Option<i32>)
    ensures
        download_failure(h, ended, code) is None <==> ended == Ended::Exited && code == Some(0i32),
        ended == Ended::Exited && code != Some(0i32) && h.rate_limited ==> download_failure(
            h,
            ended,
            code,
        ) == Some(RATE_LIMITED@),
        ended == Ended::Exited && code != Some(0i32) && !h.rate_limited && h.detected is Some
            ==> download_failure(h, ended, code) == h.detected,
{
}

/// A library is moved to the first of its hundred names that is free.
pub proof fn the_first_free_name_is_taken(name: Seq<char>, taken: Seq<Seq<char>>, i: int, k: int)
    requires
        0 <= i <= k <= 100,
        forall|j: int| i <= j < k ==> paths::holds_entry(taken, #[trigger] stash_name(name, j)),
    ensures
        k < 100 && !paths::holds_entry(taken, stash_name(name, k)) ==> free_stash(name, taken, i)
            == Some(stash_name(name, k)),
        k == 100 ==> free_stash(name, taken, i) is None,
    decreases k - i,
{
    if i < k {
        assert(paths::holds_entry(taken, stash_name(name, i)));
        the_first_free_name_is_taken(name, taken, i + 1, k);
    }
}

/// The names to which a library can be moved are all different.
pub proof fn moved_libraries_have_names_of_their_own(name: Seq<char>, i: int, j: int)
    requires
        0 <= i,
        0 <= j,
        stash_name(name, i) == stash_name(name, j),
    ensures
        i == j,
{
    let p = voice_ref::stem_of(name) + ".dll.old-"@;
    let a = text::decimal(i as nat);
    let b = text::decimal(j as nat);
    assert((p + a).skip(p.len() as int) =~= a);
    assert((p + b).skip(p.len() as int) =~= b);
    text::decimal_reads_back(i as nat);
    text::decimal_reads_back(j as nat);
}

} // verus!
