//! Scripts for several voices: a Markdown file with fenced JSON blocks named
//! `speakers`, `lines` and, if wanted, `defaults`.
//!
//! The blocks are found by their fences, line by line. What their JSON holds
//! comes back as plain values and is checked here; each line of the script
//! becomes one chunk to be read aloud.
use vstd::prelude::*;

use crate::doubles::{pause_in_range, seconds_to_ms, speed_in_range};
use crate::doubles;
use crate::reader::{ReadingChunk, VoiceSlot, DEFAULT_PAUSE_MS, NO_OFFSET};
use crate::reader;
use crate::text::{
    blank, char_count, chars_of, decimal_text, owned, push_text, same, slice_text, trim,
};
use crate::text;

verus! {

/// A number of a script: a double by its bit pattern, and as it is shown.
#[derive(Debug, PartialEq)]
pub struct Number {
    pub bits: u64,
    pub shown: String,
}

/// What the `defaults` block holds.
#[derive(Debug, PartialEq)]
pub struct DefaultsDef {
    pub default_pause_seconds: Option<Number>,
    pub speed: Option<Number>,
}

/// What the `speakers` block says of one speaker; of `ref_wav` only whether it
/// is there.
#[derive(Debug, PartialEq)]
pub struct SpeakerDef {
    pub slot: Option<String>,
    pub ref_wav: bool,
}

/// One line of the `lines` block.
#[derive(Debug, PartialEq)]
pub struct LineDef {
    pub speaker: String,
    pub text: String,
    pub speed: Option<Number>,
    pub caption: Option<String>,
    pub pause_after: Option<Number>,
}

/// Why a script cannot be read.
#[derive(Debug, PartialEq)]
pub enum ScriptError {
    NotAScript,
    UnclosedFence,
    DuplicateBlock(&'static str),
    InvalidJson { block: &'static str, line_in_block: usize, file_line: usize, detail: String },
    UnsupportedRefWav { speaker_id: String },
    InvalidSlot { speaker_id: String, slot: String },
    UnknownSpeaker { index: usize, speaker: String },
    EmptyText { index: usize },
    /// A value out of its range, of a line or, without an index, of the defaults.
    OutOfRange { index: Option<usize>, key: &'static str, value: Number },
    CaptionTooLong { index: usize, len: usize },
    InvalidSpeakerId { id: String },
    EmptyLines,
}

/// What a `ScriptError` says.
pub enum Fault {
    NotAScript,
    UnclosedFence,
    DuplicateBlock(Seq<char>),
    InvalidJson { block: Seq<char>, line_in_block: nat, file_line: nat, detail: Seq<char> },
    UnsupportedRefWav { speaker_id: Seq<char> },
    InvalidSlot { speaker_id: Seq<char>, slot: Seq<char> },
    UnknownSpeaker { index: nat, speaker: Seq<char> },
    EmptyText { index: nat },
    OutOfRange { index: Option<nat>, key: Seq<char>, bits: u64, shown: Seq<char> },
    CaptionTooLong { index: nat, len: nat },
    InvalidSpeakerId { id: Seq<char> },
    EmptyLines,
}

impl View for ScriptError {
    type V = Fault;

    open spec fn view(&self) -> Fault {
        match self {
            ScriptError::NotAScript => Fault::NotAScript,
            ScriptError::UnclosedFence => Fault::UnclosedFence,
            ScriptError::DuplicateBlock(name) => Fault::DuplicateBlock(name@),
            ScriptError::InvalidJson { block, line_in_block, file_line, detail } => {
                Fault::InvalidJson {
                    block: block@,
                    line_in_block: *line_in_block as nat,
                    file_line: *file_line as nat,
                    detail: detail@,
                }
            },
            ScriptError::UnsupportedRefWav { speaker_id } => {
                Fault::UnsupportedRefWav { speaker_id: speaker_id@ }
            },
            ScriptError::InvalidSlot { speaker_id, slot } => {
                Fault::InvalidSlot { speaker_id: speaker_id@, slot: slot@ }
            },
            ScriptError::UnknownSpeaker { index, speaker } => {
                Fault::UnknownSpeaker { index: *index as nat, speaker: speaker@ }
            },
            ScriptError::EmptyText { index } => Fault::EmptyText { index: *index as nat },
            ScriptError::OutOfRange { index, key, value } => {
                Fault::OutOfRange {
                    index: opt_nat(*index),
                    key: key@,
                    bits: value.bits,
                    shown: value.shown@,
                }
            },
            ScriptError::CaptionTooLong { index, len } => {
                Fault::CaptionTooLong { index: *index as nat, len: *len as nat }
            },
            ScriptError::InvalidSpeakerId { id } => Fault::InvalidSpeakerId { id: id@ },
            ScriptError::EmptyLines => Fault::EmptyLines,
        }
    }
}

/// An optional index as a number.
pub open spec fn opt_nat(o: Option<usize>) -> Option<nat> {
    match o {
        Some(i) => Some(i as nat),
        None => None,
    }
}

/// What is said to the user of a fault.
pub open spec fn fault_text(f: Fault) -> Seq<char> {
    match f {
        Fault::NotAScript => NOT_A_SCRIPT@,
        Fault::UnclosedFence => UNCLOSED_FENCE@,
        Fault::DuplicateBlock(name) => "```json "@ + name
            + " ブロックが複数あります (1 つにまとめてください)"@,
        Fault::InvalidJson { block, line_in_block, file_line, detail } => "```json "@ + block
            + " ブロックの JSON が不正です (ブロック内 "@ + text::decimal(line_in_block)
            + " 行目 / ファイル "@ + text::decimal(file_line) + " 行目): "@ + detail,
        Fault::UnsupportedRefWav { speaker_id } => "話者 "@ + speaker_id + REF_WAV_UNSUPPORTED@,
        Fault::InvalidSlot { speaker_id, slot } => "話者 "@ + speaker_id + " の slot \""@ + slot
            + "\" は無効です (\"main\" または \"sub\" を指定してください)"@,
        Fault::UnknownSpeaker { index, speaker } => "lines["@ + text::decimal(index)
            + "].speaker \""@ + speaker + "\" は speakers に定義されていません"@,
        Fault::EmptyText { index } => "lines["@ + text::decimal(index) + "].text が空です"@,
        Fault::OutOfRange { index, key, bits, shown } => (match index {
            Some(i) => "lines["@ + text::decimal(i) + "]."@,
            None => "defaults."@,
        }) + key + " の値 "@ + shown + " が範囲外です"@,
        Fault::CaptionTooLong { index, len } => "lines["@ + text::decimal(index)
            + "].caption が長すぎます ("@ + text::decimal(len) + " 文字 / 上限 200 文字)"@,
        Fault::InvalidSpeakerId { id } => "話者 ID \""@ + id
            + "\" が不正です (空・空白のみ・前後に空白のある ID は使用できません)"@,
        Fault::EmptyLines => EMPTY_LINES@,
    }
}

pub const NOT_A_SCRIPT: &'static str =
    "台本形式ではありません (speakers / lines ブロックが必要です)。通常の Markdown の読み上げには対応していません";

pub const UNCLOSED_FENCE: &'static str =
    "コードブロックが閉じられていません (``` が不足しています)";

pub const REF_WAV_UNSUPPORTED: &'static str =
    " で ref_wav が指定されています。ugg では外部 WAV の参照 (ref_wav) をサポートしていません。代わりに slot キー (\"main\" または \"sub\") を指定してください";

pub const EMPTY_LINES: &'static str = "lines 配列が空です";

impl ScriptError {
    /// What is said to the user.
    pub fn message(&self) -> (r: String)
        ensures
            r@ == fault_text(self@),
    {
        match self {
            ScriptError::NotAScript => owned(NOT_A_SCRIPT),
            ScriptError::UnclosedFence => owned(UNCLOSED_FENCE),
            ScriptError::DuplicateBlock(name) => {
                let mut out = owned("```json ");
                push_text(&mut out, name);
                push_text(&mut out, " ブロックが複数あります (1 つにまとめてください)");
                out
            },
            ScriptError::InvalidJson { block, line_in_block, file_line, detail } => {
                let mut out = owned("```json ");
                push_text(&mut out, block);
                push_text(&mut out, " ブロックの JSON が不正です (ブロック内 ");
                push_text(&mut out, decimal_text(*line_in_block as u64).as_str());
                push_text(&mut out, " 行目 / ファイル ");
                push_text(&mut out, decimal_text(*file_line as u64).as_str());
                push_text(&mut out, " 行目): ");
                push_text(&mut out, detail.as_str());
                out
            },
            ScriptError::UnsupportedRefWav { speaker_id } => {
                let mut out = owned("話者 ");
                push_text(&mut out, speaker_id.as_str());
                push_text(&mut out, REF_WAV_UNSUPPORTED);
                out
            },
            ScriptError::InvalidSlot { speaker_id, slot } => {
                let mut out = owned("話者 ");
                push_text(&mut out, speaker_id.as_str());
                push_text(&mut out, " の slot \"");
                push_text(&mut out, slot.as_str());
                push_text(
                    &mut out,
                    "\" は無効です (\"main\" または \"sub\" を指定してください)",
                );
                out
            },
            ScriptError::UnknownSpeaker { index, speaker } => {
                let mut out = owned("lines[");
                push_text(&mut out, decimal_text(*index as u64).as_str());
                push_text(&mut out, "].speaker \"");
                push_text(&mut out, speaker.as_str());
                push_text(&mut out, "\" は speakers に定義されていません");
                out
            },
            ScriptError::EmptyText { index } => {
                let mut out = owned("lines[");
                push_text(&mut out, decimal_text(*index as u64).as_str());
                push_text(&mut out, "].text が空です");
                out
            },
            ScriptError::OutOfRange { index, key, value } => {
                let mut out = match index {
                    Some(i) => {
                        let mut o = owned("lines[");
                        push_text(&mut o, decimal_text(*i as u64).as_str());
                        push_text(&mut o, "].");
                        o
                    },
                    None => owned("defaults."),
                };
                push_text(&mut out, key);
                push_text(&mut out, " の値 ");
                push_text(&mut out, value.shown.as_str());
                push_text(&mut out, " が範囲外です");
                out
            },
            ScriptError::CaptionTooLong { index, len } => {
                let mut out = owned("lines[");
                push_text(&mut out, decimal_text(*index as u64).as_str());
                push_text(&mut out, "].caption が長すぎます (");
                push_text(&mut out, decimal_text(*len as u64).as_str());
                push_text(&mut out, " 文字 / 上限 200 文字)");
                out
            },
            ScriptError::InvalidSpeakerId { id } => {
                let mut out = owned("話者 ID \"");
                push_text(&mut out, id.as_str());
                push_text(
                    &mut out,
                    "\" が不正です (空・空白のみ・前後に空白のある ID は使用できません)",
                );
                out
            },
            ScriptError::EmptyLines => owned(EMPTY_LINES),
        }
    }
}

/// The lines of the text from position `i` on, cut at each newline, without a
/// carriage return at the end. What follows the last newline is a line too.
pub open spec fn raw_lines_from(s: Seq<char>, i: int) -> Seq<Seq<char>>
    decreases s.len() - i,
    when 0 <= i <= s.len()
    via raw_lines_terminates
{
    let e = text::line_end(s, i);
    let line = text::without_cr(s.subrange(i, e));
    if e == s.len() {
        seq![line]
    } else {
        seq![line] + raw_lines_from(s, e + 1)
    }
}

#[via_fn]
proof fn raw_lines_terminates(s: Seq<char>, i: int) {
    text::lemma_line_end(s, i);
}

/// The text without a byte order mark at its front.
pub open spec fn without_mark(s: Seq<char>) -> Seq<char> {
    if s.len() > 0 && s[0] == '\u{feff}' {
        s.skip(1)
    } else {
        s
    }
}

/// The lines of a script file.
pub open spec fn script_lines(s: Seq<char>) -> Seq<Seq<char>> {
    raw_lines_from(without_mark(s), 0)
}

/// Cuts a script file into lines.
fn split_script_lines(content: &str) -> (r: Vec<String>)
    ensures
        text::texts(r@) == script_lines(content@),
{
    let all = chars_of(content);
    let from: usize = if all.len() > 0 && all[0] == '\u{feff}' { 1 } else { 0 };
    let body = slice_text(&all, from, all.len());
    let ghost s = without_mark(content@);
    assert(body@ =~= s);
    let cs = chars_of(body.as_str());
    let mut out: Vec<String> = Vec::new();
    let mut i: usize = 0;
    assert(text::texts(out@) + raw_lines_from(s, 0) =~= script_lines(content@));
    loop
        invariant
            i <= cs@.len(),
            cs@ == s,
            text::texts(out@) + raw_lines_from(s, i as int) == script_lines(content@),
        decreases cs@.len() - i,
    {
        let mut e: usize = i;
        while e < cs.len() && cs[e] != '\n'
            invariant
                i <= e <= cs@.len(),
                cs@ == s,
                text::line_end(s, i as int) == text::line_end(s, e as int),
            decreases cs@.len() - e,
        {
            e += 1;
        }
        assert(e as int == text::line_end(s, i as int));
        let ghost before = text::texts(out@);
        let stop: usize = if e > i && cs[e - 1] == '\r' { e - 1 } else { e };
        let line = slice_text(&cs, i, stop);
        proof {
            let whole = s.subrange(i as int, e as int);
            if stop < e {
                assert(whole.drop_last() =~= line@);
            }
            assert(line@ == text::without_cr(whole));
        }
        out.push(line);
        assert(text::texts(out@) =~= before + seq![line@]);
        if e >= cs.len() {
            return out;
        }
        assert(before + (seq![line@] + raw_lines_from(s, e as int + 1)) =~= text::texts(out@)
            + raw_lines_from(s, e as int + 1));
        i = e + 1;
    }
}

/// A fenced block: its text, and the number of its first line in the file,
/// counted from 1.
#[derive(Debug, PartialEq)]
pub struct FencedBlock {
    pub body: String,
    pub start_file_line: usize,
}

/// The blocks that a script may have.
#[derive(Debug, PartialEq)]
pub struct Blocks {
    pub defaults: Option<FencedBlock>,
    pub speakers: Option<FencedBlock>,
    pub lines: Option<FencedBlock>,
}

/// What a `FencedBlock` holds.
pub struct Block {
    pub body: Seq<char>,
    pub start_file_line: nat,
}

/// What `Blocks` hold.
pub struct BlockSet {
    pub defaults: Option<Block>,
    pub speakers: Option<Block>,
    pub lines: Option<Block>,
}

/// What an optional block holds.
pub open spec fn opt_block(o: Option<FencedBlock>) -> Option<Block> {
    match o {
        Some(b) => Some(Block { body: b.body@, start_file_line: b.start_file_line as nat }),
        None => None,
    }
}

impl View for Blocks {
    type V = BlockSet;

    open spec fn view(&self) -> BlockSet {
        BlockSet {
            defaults: opt_block(self.defaults),
            speakers: opt_block(self.speakers),
            lines: opt_block(self.lines),
        }
    }
}

/// Which block a line opens.
#[derive(Clone, Copy, Debug, PartialEq, Eq, Structural)]
pub enum BlockName {
    Defaults,
    Speakers,
    Lines,
}

/// The block's name as it is written.
pub open spec fn name_text(n: BlockName) -> Seq<char> {
    match n {
        BlockName::Defaults => "defaults"@,
        BlockName::Speakers => "speakers"@,
        BlockName::Lines => "lines"@,
    }
}

/// The line that opens a block of the given name.
pub open spec fn fence_open(n: BlockName) -> Seq<char> {
    "```json "@ + name_text(n)
}

/// The block that a line opens, white space at its ends aside.
pub open spec fn opened(line: Seq<char>) -> Option<BlockName> {
    let l = text::trimmed(line);
    if l == fence_open(BlockName::Defaults) {
        Some(BlockName::Defaults)
    } else if l == fence_open(BlockName::Speakers) {
        Some(BlockName::Speakers)
    } else if l == fence_open(BlockName::Lines) {
        Some(BlockName::Lines)
    } else {
        None
    }
}

/// The first line at or after the `j`-th that closes a block, or the end.
pub open spec fn fence_close(l: Seq<Seq<char>>, j: int) -> int
    decreases l.len() - j,
    when 0 <= j <= l.len()
{
    if j == l.len() || text::trimmed(l[j]) == "```"@ {
        j
    } else {
        fence_close(l, j + 1)
    }
}

proof fn lemma_fence_close(l: Seq<Seq<char>>, j: int)
    requires
        0 <= j <= l.len(),
    ensures
        j <= fence_close(l, j) <= l.len(),
    decreases l.len() - j,
{
    if j < l.len() && text::trimmed(l[j]) != "```"@ {
        lemma_fence_close(l, j + 1);
    }
}

/// The lines from the `a`-th up to the `b`-th, with a newline between them.
pub open spec fn joined_lines(l: Seq<Seq<char>>, a: int, b: int) -> Seq<char>
    decreases b - a,
{
    if a >= b {
        Seq::empty()
    } else if a == b - 1 {
        l[a]
    } else {
        joined_lines(l, a, b - 1) + "\n"@ + l[b - 1]
    }
}

/// The block of the given name.
pub open spec fn block_of(b: BlockSet, n: BlockName) -> Option<Block> {
    match n {
        BlockName::Defaults => b.defaults,
        BlockName::Speakers => b.speakers,
        BlockName::Lines => b.lines,
    }
}

/// The blocks with one more.
pub open spec fn with_block(b: BlockSet, n: BlockName, x: Block) -> BlockSet {
    match n {
        BlockName::Defaults => BlockSet { defaults: Some(x), ..b },
        BlockName::Speakers => BlockSet { speakers: Some(x), ..b },
        BlockName::Lines => BlockSet { lines: Some(x), ..b },
    }
}

/// What the lines from the `i`-th on add to the blocks found so far. A block
/// that is never closed, and a second block of one name, are faults; of two
/// faults the one that opens first counts.
pub open spec fn blocks_from(l: Seq<Seq<char>>, i: int, b: BlockSet) -> Result<BlockSet, Fault>
    decreases l.len() - i,
    when 0 <= i <= l.len()
    via blocks_from_terminates
{
    if i == l.len() {
        Ok(b)
    } else {
        match opened(l[i]) {
            None => blocks_from(l, i + 1, b),
            Some(n) => {
                let j = fence_close(l, i + 1);
                if j == l.len() {
                    Err(Fault::UnclosedFence)
                } else if block_of(b, n) is Some {
                    Err(Fault::DuplicateBlock(name_text(n)))
                } else {
                    let x = Block {
                        body: joined_lines(l, i + 1, j),
                        start_file_line: (i + 2) as nat,
                    };
                    blocks_from(l, j + 1, with_block(b, n, x))
                }
            },
        }
    }
}

#[via_fn]
proof fn blocks_from_terminates(l: Seq<Seq<char>>, i: int, b: BlockSet) {
    if i < l.len() {
        lemma_fence_close(l, i + 1);
    }
}

/// No block at all.
pub open spec fn no_blocks() -> BlockSet {
    BlockSet { defaults: None, speakers: None, lines: None }
}

/// The blocks of a script file.
pub open spec fn blocks_in(s: Seq<char>) -> Result<BlockSet, Fault> {
    blocks_from(script_lines(s), 0, no_blocks())
}

/// The text with a carriage return before each newline.
pub open spec fn with_returns(s: Seq<char>) -> Seq<char> {
    text::replaced(s, "\n"@, "\r\n"@)
}

/// No newline has a carriage return before it.
pub open spec fn has_bare_newlines(s: Seq<char>) -> bool {
    forall|j: int| 0 < j < s.len() && #[trigger] s[j] == '\n' ==> s[j - 1] != '\r'
}

proof fn lemma_returns_by_line(s: Seq<char>, i: int)
    requires
        0 <= i <= s.len(),
    ensures
        text::replaced_from(s, i, "\n"@, "\r\n"@) == s.subrange(i, text::line_end(s, i)) + (
        if text::line_end(s, i) == s.len() {
            Seq::empty()
        } else {
            "\r\n"@ + text::replaced_from(s, text::line_end(s, i) + 1, "\n"@, "\r\n"@)
        }),
    decreases s.len() - i,
{
    reveal_strlit("\n");
    text::lemma_line_end(s, i);
    let e = text::line_end(s, i);
    if i == s.len() {
        assert(s.subrange(i, e) =~= Seq::<char>::empty());
    } else {
        assert(text::matches_at(s, i, "\n"@) == (s[i] == '\n')) by {
            assert(s.subrange(i, i + 1) =~= seq![s[i]]);
            assert("\n"@ =~= seq!['\n']);
            assert(seq![s[i]][0] == s[i] && "\n"@[0] == '\n');
        }
        if s[i] == '\n' {
            assert(s.subrange(i, e) =~= Seq::<char>::empty());
        } else {
            lemma_returns_by_line(s, i + 1);
            assert(s.subrange(i, e) =~= seq![s[i]] + s.subrange(i + 1, e));
        }
    }
    assert(text::replaced_from(s, i, "\n"@, "\r\n"@) =~= s.subrange(i, e) + (if e == s.len() {
        Seq::empty()
    } else {
        "\r\n"@ + text::replaced_from(s, e + 1, "\n"@, "\r\n"@)
    }));
}

proof fn lemma_returns_keep_lines(q: Seq<char>, s: Seq<char>, i: int)
    requires
        0 <= i <= s.len(),
        has_bare_newlines(s),
    ensures
        raw_lines_from(q + text::replaced_from(s, i, "\n"@, "\r\n"@), q.len() as int)
            == raw_lines_from(s, i),
    decreases s.len() - i,
{
    reveal_strlit("\n");
    reveal_strlit("\r\n");
    text::lemma_line_end(s, i);
    lemma_returns_by_line(s, i);
    let e = text::line_end(s, i);
    let whole = s.subrange(i, e);
    let t = q + text::replaced_from(s, i, "\n"@, "\r\n"@);
    let a = q.len() as int;
    text::lemma_line_end(t, a);
    let b = text::line_end(t, a);
    if e == s.len() {
        assert(t =~= q + whole);
        if b < t.len() {
            assert(t[b] == s[i + (b - a)]);
        }
        assert(t.subrange(a, b) =~= whole);
    } else {
        let rest = text::replaced_from(s, e + 1, "\n"@, "\r\n"@);
        let n = a + (e - i);
        assert(t =~= q + whole + "\r\n"@ + rest);
        assert(t[n] == '\r');
        assert(t[n + 1] == '\n');
        if b < n {
            assert(t[b] == s[i + (b - a)]);
        }
        assert(b == n + 1);
        assert(t.subrange(a, b) =~= whole.push('\r'));
        assert(whole.push('\r').drop_last() =~= whole);
        if whole.len() > 0 {
            assert(whole.last() == s[e - 1]);
            assert(s[e] == '\n');
        }
        assert(text::without_cr(whole) == whole);
        let p = q + whole + "\r\n"@;
        assert(t =~= p + rest);
        lemma_returns_keep_lines(p, s, e + 1);
    }
}

/// A script gives the same blocks, or the same fault, whether its lines end in a
/// newline or in a carriage return and a newline, and whether or not a byte order
/// mark stands at its front. Of a carriage return before a newline that is there
/// already one would be left at the end of the line, and of two marks the second.
pub proof fn a_mark_and_returns_change_nothing(s: Seq<char>)
    requires
        has_bare_newlines(s),
        !(s.len() > 0 && s[0] == '\u{feff}'),
    ensures
        blocks_in(with_returns(s)) == blocks_in(s),
        blocks_in("\u{feff}"@ + s) == blocks_in(s),
        blocks_in("\u{feff}"@ + with_returns(s)) == blocks_in(s),
{
    reveal_strlit("\u{feff}");
    reveal_strlit("\r\n");
    let t = with_returns(s);
    lemma_returns_keep_lines(Seq::empty(), s, 0);
    assert(Seq::<char>::empty() + t =~= t);
    lemma_returns_by_line(s, 0);
    text::lemma_line_end(s, 0);
    let e = text::line_end(s, 0);
    if t.len() > 0 && e > 0 {
        assert(s.subrange(0, e)[0] == s[0]);
        assert(t[0] == s[0]);
    }
    assert(without_mark(t) == t);
    assert(("\u{feff}"@ + s).skip(1) =~= s);
    assert(("\u{feff}"@ + t).skip(1) =~= t);
}

/// What a result of blocks says.
pub open spec fn blocks_result(r: Result<Blocks, ScriptError>) -> Result<BlockSet, Fault> {
    match r {
        Ok(b) => Ok(b@),
        Err(e) => Err(e@),
    }
}

/// The line that opens a block of the given name.
pub fn fence_open_line(name: &str) -> (r: String)
    ensures
        r@ == "```json "@ + name@,
{
    let mut out = owned("```json ");
    push_text(&mut out, name);
    out
}

/// The block that a line opens.
fn opened_block(line: &str) -> (r: Option<BlockName>)
    ensures
        r == opened(line@),
{
    let l = trim(line);
    if same(l.as_str(), fence_open_line("defaults").as_str()) {
        Some(BlockName::Defaults)
    } else if same(l.as_str(), fence_open_line("speakers").as_str()) {
        Some(BlockName::Speakers)
    } else if same(l.as_str(), fence_open_line("lines").as_str()) {
        Some(BlockName::Lines)
    } else {
        None
    }
}

/// The block's name as it is written.
fn block_name(n: BlockName) -> (r: &'static str)
    ensures
        r@ == name_text(n),
{
    match n {
        BlockName::Defaults => "defaults",
        BlockName::Speakers => "speakers",
        BlockName::Lines => "lines",
    }
}

/// The lines from the `a`-th up to the `b`-th, with a newline between them.
fn join_lines(l: &Vec<String>, a: usize, b: usize) -> (r: String)
    requires
        a <= b <= l@.len(),
    ensures
        r@ == joined_lines(text::texts(l@), a as int, b as int),
{
    let mut out = String::new();
    let mut k: usize = a;
    while k < b
        invariant
            a <= k <= b <= l@.len(),
            out@ == joined_lines(text::texts(l@), a as int, k as int),
        decreases b - k,
    {
        assert(text::texts(l@)[k as int] == l@[k as int]@);
        if k > a {
            push_text(&mut out, "\n");
        }
        push_text(&mut out, l[k].as_str());
        if k == a {
            assert(out@ =~= l@[k as int]@);
        }
        k += 1;
    }
    out
}

/// Finds the blocks of a script by their fences.
pub fn extract_fenced_blocks(content: &str) -> (r: Result<Blocks, ScriptError>)
    requires
        content@.len() < usize::MAX - 2,
    ensures
        blocks_result(r) == blocks_in(content@),
{
    let lines = split_script_lines(content);
    let ghost l = text::texts(lines@);
    let mut found = Blocks { defaults: None, speakers: None, lines: None };
    let mut i: usize = 0;
    proof {
        lemma_line_count(without_mark(content@), 0);
    }
    while i < lines.len()
        invariant
            i <= lines@.len(),
            lines@.len() < usize::MAX - 1,
            l == text::texts(lines@),
            blocks_from(l, i as int, found@) == blocks_in(content@),
        decreases lines@.len() - i,
    {
        assert(l[i as int] == lines@[i as int]@);
        match opened_block(lines[i].as_str()) {
            None => {
                i += 1;
            },
            Some(n) => {
                proof {
                    lemma_fence_close(l, i + 1);
                }
                let mut j: usize = i + 1;
                while j < lines.len() && !same(trim(lines[j].as_str()).as_str(), "```")
                    invariant
                        i + 1 <= j <= lines@.len(),
                        l == text::texts(lines@),
                        fence_close(l, i + 1) == fence_close(l, j as int),
                    decreases lines@.len() - j,
                {
                    assert(l[j as int] == lines@[j as int]@);
                    j += 1;
                }
                if j < lines.len() {
                    assert(l[j as int] == lines@[j as int]@);
                }
                assert(j as int == fence_close(l, i + 1));
                if j >= lines.len() {
                    return Err(ScriptError::UnclosedFence);
                }
                let taken = match n {
                    BlockName::Defaults => found.defaults.is_some(),
                    BlockName::Speakers => found.speakers.is_some(),
                    BlockName::Lines => found.lines.is_some(),
                };
                if taken {
                    return Err(ScriptError::DuplicateBlock(block_name(n)));
                }
                let block = FencedBlock {
                    body: join_lines(&lines, i + 1, j),
                    start_file_line: i + 2,
                };
                let ghost x = opt_block(Some(block))->0;
                let ghost before = found@;
                match n {
                    BlockName::Defaults => {
                        found.defaults = Some(block);
                    },
                    BlockName::Speakers => {
                        found.speakers = Some(block);
                    },
                    BlockName::Lines => {
                        found.lines = Some(block);
                    },
                }
                assert(found@ == with_block(before, n, x));
                i = j + 1;
            },
        }
    }
    Ok(found)
}

/// There are no more lines than characters, and one.
proof fn lemma_line_count(s: Seq<char>, i: int)
    requires
        0 <= i <= s.len(),
    ensures
        raw_lines_from(s, i).len() <= s.len() - i + 1,
    decreases s.len() - i,
{
    text::lemma_line_end(s, i);
    if text::line_end(s, i) < s.len() {
        lemma_line_count(s, text::line_end(s, i) + 1);
    }
}

/// Why a block's JSON could not be read: the line within the block, counted
/// from 1, and what the reader says.
#[derive(Debug, PartialEq)]
pub struct JsonFault {
    pub line: usize,
    pub detail: String,
}

/// What reading the JSON of the blocks that are there gave. The speakers come
/// in the order of their ids.
#[derive(Debug, PartialEq)]
pub struct ParsedBlocks {
    pub defaults: Option<Result<DefaultsDef, JsonFault>>,
    pub speakers: Option<Result<Vec<(String, SpeakerDef)>, JsonFault>>,
    pub lines: Option<Result<Vec<LineDef>, JsonFault>>,
}

/// The fault of a block whose JSON could not be read, with the line in the file.
pub open spec fn json_fault(n: BlockName, start: nat, f: JsonFault) -> Fault {
    Fault::InvalidJson {
        block: name_text(n),
        line_in_block: f.line as nat,
        file_line: start + (if f.line > 0 {
            (f.line - 1) as nat
        } else {
            0
        }),
        detail: f.detail@,
    }
}

/// A value that is not in its range.
pub open spec fn range_fault(index: Option<nat>, key: Seq<char>, v: Number) -> Fault {
    Fault::OutOfRange { index, key, bits: v.bits, shown: v.shown@ }
}

/// What is wrong with the defaults.
pub open spec fn defaults_fault(d: DefaultsDef) -> Option<Fault> {
    if d.default_pause_seconds matches Some(p) && !doubles::is_pause(p.bits) {
        Some(range_fault(None, "default_pause_seconds"@, d.default_pause_seconds->0))
    } else if d.speed matches Some(v) && !doubles::is_speed(v.bits) {
        Some(range_fault(None, "speed"@, d.speed->0))
    } else {
        None
    }
}

/// The voice that a slot's text names.
pub open spec fn named_slot(slot: Seq<char>) -> Option<VoiceSlot> {
    if slot == "main"@ {
        Some(VoiceSlot::Main)
    } else if slot == "sub"@ {
        Some(VoiceSlot::Sub)
    } else {
        None
    }
}

/// The text of a speaker's slot; none is like an empty one.
pub open spec fn slot_text(d: SpeakerDef) -> Seq<char> {
    match d.slot {
        Some(s) => s@,
        None => Seq::empty(),
    }
}

/// What is wrong with a speaker.
pub open spec fn speaker_fault(id: Seq<char>, d: SpeakerDef) -> Option<Fault> {
    if text::trimmed(id) != id || id.len() == 0 {
        Some(Fault::InvalidSpeakerId { id })
    } else if d.ref_wav {
        Some(Fault::UnsupportedRefWav { speaker_id: id })
    } else if named_slot(slot_text(d)) is None {
        Some(Fault::InvalidSlot { speaker_id: id, slot: slot_text(d) })
    } else {
        None
    }
}

/// What is wrong with the first speaker, from the `i`-th on, of which anything is.
pub open spec fn speakers_fault(s: Seq<(String, SpeakerDef)>, i: int) -> Option<Fault>
    decreases s.len() - i,
    when 0 <= i <= s.len()
{
    if i == s.len() {
        None
    } else if speaker_fault(s[i].0@, s[i].1) is Some {
        speaker_fault(s[i].0@, s[i].1)
    } else {
        speakers_fault(s, i + 1)
    }
}

/// The voice of a speaker, among those from the `i`-th on.
pub open spec fn voice_of(s: Seq<(String, SpeakerDef)>, id: Seq<char>, i: int) -> Option<VoiceSlot>
    decreases s.len() - i,
    when 0 <= i <= s.len()
{
    if i == s.len() {
        None
    } else if s[i].0@ == id {
        named_slot(slot_text(s[i].1))
    } else {
        voice_of(s, id, i + 1)
    }
}

/// The longest caption.
pub const MAX_CAPTION_CHARS: usize = 200;

/// A caption as it is used: one that is blank is none, and one that is too
/// long is a fault.
pub open spec fn used_caption(index: nat, c: Option<Seq<char>>) -> Result<Option<Seq<char>>, Fault> {
    match c {
        None => Ok(None),
        Some(s) => if text::is_blank(s) {
            Ok(None)
        } else if s.len() > MAX_CAPTION_CHARS {
            Err(Fault::CaptionTooLong { index, len: s.len() })
        } else {
            Ok(Some(s))
        },
    }
}

/// The chunk of the line of the given index.
pub open spec fn line_chunk(
    s: Seq<(String, SpeakerDef)>,
    speed: u64,
    pause_ms: u32,
    index: nat,
    line: LineDef,
) -> Result<reader::Chunk, Fault> {
    let caption = used_caption(index, text::opt_text(line.caption));
    if voice_of(s, line.speaker@, 0) is None {
        Err(Fault::UnknownSpeaker { index, speaker: line.speaker@ })
    } else if text::is_blank(line.text@) {
        Err(Fault::EmptyText { index })
    } else if line.speed matches Some(v) && !doubles::is_speed(v.bits) {
        Err(range_fault(Some(index), "speed"@, line.speed->0))
    } else if line.pause_after matches Some(p) && !doubles::is_pause(p.bits) {
        Err(range_fault(Some(index), "pause_after"@, line.pause_after->0))
    } else if caption is Err {
        Err(caption->Err_0)
    } else {
        Ok(
            reader::Chunk {
                text: line.text@,
                slot: voice_of(s, line.speaker@, 0)->0,
                speed_offset: (match line.speed {
                    Some(v) => v.bits,
                    None => speed,
                }),
                caption: caption->Ok_0,
                pause_after_ms: (match line.pause_after {
                    Some(p) => doubles::milliseconds(p.bits) as u32,
                    None => pause_ms,
                }),
            },
        )
    }
}

/// The chunks of the lines from the `i`-th on, or the fault of the first line
/// that has one.
pub open spec fn line_chunks(
    s: Seq<(String, SpeakerDef)>,
    speed: u64,
    pause_ms: u32,
    l: Seq<LineDef>,
    i: int,
) -> Result<Seq<reader::Chunk>, Fault>
    decreases l.len() - i,
    when 0 <= i <= l.len()
{
    if i == l.len() {
        Ok(Seq::empty())
    } else {
        match line_chunk(s, speed, pause_ms, i as nat, l[i]) {
            Err(f) => Err(f),
            Ok(c) => match line_chunks(s, speed, pause_ms, l, i + 1) {
                Err(f) => Err(f),
                Ok(rest) => Ok(seq![c] + rest),
            },
        }
    }
}

/// The defaults where there is no block of them.
pub open spec fn no_defaults() -> DefaultsDef {
    DefaultsDef { default_pause_seconds: None, speed: None }
}

/// The defaults that apply.
pub open spec fn defaults_used(p: ParsedBlocks) -> DefaultsDef {
    match p.defaults {
        Some(Ok(d)) => d,
        _ => no_defaults(),
    }
}

/// The chunks of a script whose blocks have been read, its speakers and lines
/// both there.
pub open spec fn checked_chunks(
    d: DefaultsDef,
    s: Seq<(String, SpeakerDef)>,
    l: Seq<LineDef>,
) -> Result<Seq<reader::Chunk>, Fault> {
    if defaults_fault(d) is Some {
        Err(defaults_fault(d)->0)
    } else if speakers_fault(s, 0) is Some {
        Err(speakers_fault(s, 0)->0)
    } else if l.len() == 0 {
        Err(Fault::EmptyLines)
    } else {
        let speed = match d.speed {
            Some(v) => v.bits,
            None => NO_OFFSET,
        };
        let pause_ms = match d.default_pause_seconds {
            Some(p) => doubles::milliseconds(p.bits) as u32,
            None => DEFAULT_PAUSE_MS,
        };
        line_chunks(s, speed, pause_ms, l, 0)
    }
}

/// What a script gives. JSON that could not be read is reported before a
/// block that is missing, and a block that is missing before anything that is
/// wrong inside one.
pub open spec fn script_outcome(b: BlockSet, p: ParsedBlocks) -> Result<Seq<reader::Chunk>, Fault> {
    if b.defaults is None && b.speakers is None && b.lines is None {
        Err(Fault::NotAScript)
    } else if p.defaults matches Some(Err(f)) {
        Err(json_fault(BlockName::Defaults, b.defaults->0.start_file_line, p.defaults->0->Err_0))
    } else if p.speakers matches Some(Err(f)) {
        Err(json_fault(BlockName::Speakers, b.speakers->0.start_file_line, p.speakers->0->Err_0))
    } else if p.lines matches Some(Err(f)) {
        Err(json_fault(BlockName::Lines, b.lines->0.start_file_line, p.lines->0->Err_0))
    } else if p.speakers is None || p.lines is None {
        Err(Fault::NotAScript)
    } else {
        checked_chunks(defaults_used(p), p.speakers->0->Ok_0@, p.lines->0->Ok_0@)
    }
}

/// What a result of chunks says.
pub open spec fn chunks_result(r: Result<Vec<ReadingChunk>, ScriptError>) -> Result<
    Seq<reader::Chunk>,
    Fault,
> {
    match r {
        Ok(v) => Ok(reader::chunk_views(v@)),
        Err(e) => Err(e@),
    }
}

/// The line of a fault in the file is within reach of a machine number.
pub open spec fn line_fits<T>(b: Option<FencedBlock>, r: Option<Result<T, JsonFault>>) -> bool {
    r matches Some(Err(f)) ==> b is Some && b->0.start_file_line + f.line <= usize::MAX
}

/// A copy of a number.
fn copy_number(n: &Number) -> (r: Number)
    ensures
        r.bits == n.bits,
        r.shown@ == n.shown@,
{
    Number { bits: n.bits, shown: owned(n.shown.as_str()) }
}

/// The error of a block whose JSON could not be read.
pub fn json_error(name: BlockName, block: &FencedBlock, fault: &JsonFault) -> (r: ScriptError)
    requires
        block.start_file_line + fault.line <= usize::MAX,
    ensures
        r@ == json_fault(name, block.start_file_line as nat, *fault),
{
    ScriptError::InvalidJson {
        block: block_name(name),
        line_in_block: fault.line,
        file_line: block.start_file_line + fault.line.saturating_sub(1),
        detail: owned(fault.detail.as_str()),
    }
}

/// Refuses a pause that is not between 0 and 10 seconds.
pub fn validate_pause_range(index: Option<usize>, key: &'static str, value: &Number) -> (r: Result<
    (),
    ScriptError,
>)
    ensures
        r is Ok == doubles::is_pause(value.bits),
        r matches Err(e) ==> e@ == range_fault(opt_nat(index), key@, *value),
{
    if !pause_in_range(value.bits) {
        return Err(ScriptError::OutOfRange { index, key, value: copy_number(value) });
    }
    Ok(())
}

/// Refuses a speed that is not between -1 and 1.
pub fn validate_speed_range(index: Option<usize>, key: &'static str, value: &Number) -> (r: Result<
    (),
    ScriptError,
>)
    ensures
        r is Ok == doubles::is_speed(value.bits),
        r matches Err(e) ==> e@ == range_fault(opt_nat(index), key@, *value),
{
    if !speed_in_range(value.bits) {
        return Err(ScriptError::OutOfRange { index, key, value: copy_number(value) });
    }
    Ok(())
}

/// A caption as it is used: one that is blank is none, and one that is too
/// long is refused.
pub fn normalize_caption(index: usize, caption: &Option<String>) -> (r: Result<
    Option<String>,
    ScriptError,
>)
    ensures
        (match r {
            Ok(c) => Ok(text::opt_text(c)),
            Err(e) => Err(e@),
        }) == used_caption(index as nat, text::opt_text(*caption)),
{
    match caption {
        None => Ok(None),
        Some(raw) => {
            if blank(raw.as_str()) {
                return Ok(None);
            }
            let len = char_count(raw.as_str());
            if len > MAX_CAPTION_CHARS {
                return Err(ScriptError::CaptionTooLong { index, len });
            }
            Ok(Some(owned(raw.as_str())))
        },
    }
}

/// The voice that a slot's text names.
fn parse_slot(slot: &str) -> (r: Option<VoiceSlot>)
    ensures
        r == named_slot(slot@),
{
    if same(slot, "main") {
        Some(VoiceSlot::Main)
    } else if same(slot, "sub") {
        Some(VoiceSlot::Sub)
    } else {
        None
    }
}

/// The text of a speaker's slot; none is like an empty one.
fn slot_or_empty(def: &SpeakerDef) -> (r: String)
    ensures
        r@ == slot_text(*def),
{
    match &def.slot {
        Some(s) => owned(s.as_str()),
        None => String::new(),
    }
}

/// Refuses a speaker of which anything is wrong.
fn check_speaker(id: &str, def: &SpeakerDef) -> (r: Result<(), ScriptError>)
    ensures
        r is Ok == (speaker_fault(id@, *def) is None),
        r matches Err(e) ==> speaker_fault(id@, *def) == Some(e@),
{
    if !same(trim(id).as_str(), id) || char_count(id) == 0 {
        return Err(ScriptError::InvalidSpeakerId { id: owned(id) });
    }
    if def.ref_wav {
        return Err(ScriptError::UnsupportedRefWav { speaker_id: owned(id) });
    }
    let slot = slot_or_empty(def);
    if parse_slot(slot.as_str()).is_none() {
        return Err(ScriptError::InvalidSlot { speaker_id: owned(id), slot });
    }
    Ok(())
}

/// The voice of a speaker.
fn find_voice(speakers: &Vec<(String, SpeakerDef)>, id: &str) -> (r: Option<VoiceSlot>)
    ensures
        r == voice_of(speakers@, id@, 0),
{
    let mut i: usize = 0;
    while i < speakers.len()
        invariant
            i <= speakers@.len(),
            voice_of(speakers@, id@, 0) == voice_of(speakers@, id@, i as int),
        decreases speakers@.len() - i,
    {
        if same(speakers[i].0.as_str(), id) {
            let slot = slot_or_empty(&speakers[i].1);
            return parse_slot(slot.as_str());
        }
        i += 1;
    }
    None
}

/// The chunk of one line.
fn resolve_line(
    speakers: &Vec<(String, SpeakerDef)>,
    default_speed: u64,
    default_pause_ms: u32,
    index: usize,
    line: &LineDef,
) -> (r: Result<ReadingChunk, ScriptError>)
    ensures
        (match r {
            Ok(c) => Ok(c@),
            Err(e) => Err(e@),
        }) == line_chunk(speakers@, default_speed, default_pause_ms, index as nat, *line),
{
    let slot = match find_voice(speakers, line.speaker.as_str()) {
        Some(slot) => slot,
        None => {
            return Err(
                ScriptError::UnknownSpeaker { index, speaker: owned(line.speaker.as_str()) },
            );
        },
    };
    if blank(line.text.as_str()) {
        return Err(ScriptError::EmptyText { index });
    }
    let speed_offset: u64 = match &line.speed {
        Some(v) => {
            match validate_speed_range(Some(index), "speed", v) {
                Ok(_) => {},
                Err(e) => {
                    return Err(e);
                },
            }
            v.bits
        },
        None => default_speed,
    };
    let pause_after_ms: u32 = match &line.pause_after {
        Some(p) => {
            match validate_pause_range(Some(index), "pause_after", p) {
                Ok(_) => {},
                Err(e) => {
                    return Err(e);
                },
            }
            seconds_to_ms(p.bits)
        },
        None => default_pause_ms,
    };
    let caption = match normalize_caption(index, &line.caption) {
        Ok(c) => c,
        Err(e) => {
            return Err(e);
        },
    };
    Ok(
        ReadingChunk {
            text: owned(line.text.as_str()),
            slot,
            speed_offset,
            caption,
            pause_after_ms,
        },
    )
}

/// The chunks of a script whose blocks have all been read.
pub fn resolve_script(
    defaults: &DefaultsDef,
    speakers: &Vec<(String, SpeakerDef)>,
    lines: &Vec<LineDef>,
) -> (r: Result<Vec<ReadingChunk>, ScriptError>)
    ensures
        chunks_result(r) == checked_chunks(*defaults, speakers@, lines@),
{
    match &defaults.default_pause_seconds {
        Some(p) => match validate_pause_range(None, "default_pause_seconds", p) {
            Ok(_) => {},
            Err(e) => {
                return Err(e);
            },
        },
        None => {},
    }
    match &defaults.speed {
        Some(v) => match validate_speed_range(None, "speed", v) {
            Ok(_) => {},
            Err(e) => {
                return Err(e);
            },
        },
        None => {},
    }
    let default_speed: u64 = match &defaults.speed {
        Some(v) => v.bits,
        None => NO_OFFSET,
    };
    let default_pause_ms: u32 = match &defaults.default_pause_seconds {
        Some(p) => seconds_to_ms(p.bits),
        None => DEFAULT_PAUSE_MS,
    };
    let mut i: usize = 0;
    while i < speakers.len()
        invariant
            i <= speakers@.len(),
            defaults_fault(*defaults) is None,
            speakers_fault(speakers@, 0) == speakers_fault(speakers@, i as int),
        decreases speakers@.len() - i,
    {
        match check_speaker(speakers[i].0.as_str(), &speakers[i].1) {
            Ok(_) => {},
            Err(e) => {
                return Err(e);
            },
        }
        i += 1;
    }
    if lines.len() == 0 {
        return Err(ScriptError::EmptyLines);
    }
    let ghost all = line_chunks(speakers@, default_speed, default_pause_ms, lines@, 0);
    let mut out: Vec<ReadingChunk> = Vec::new();
    let mut k: usize = 0;
    assert(reader::chunk_views(out@) =~= Seq::<reader::Chunk>::empty());
    proof {
        if all is Ok {
            assert(reader::chunk_views(out@) + all->Ok_0 =~= all->Ok_0);
        }
    }
    while k < lines.len()
        invariant
            k <= lines@.len(),
            all == checked_chunks(*defaults, speakers@, lines@),
            all == (match line_chunks(
                speakers@,
                default_speed,
                default_pause_ms,
                lines@,
                k as int,
            ) {
                Err(f) => Err::<Seq<reader::Chunk>, Fault>(f),
                Ok(rest) => Ok(reader::chunk_views(out@) + rest),
            }),
        decreases lines@.len() - k,
    {
        let ghost prior = reader::chunk_views(out@);
        match resolve_line(speakers, default_speed, default_pause_ms, k, &lines[k]) {
            Ok(c) => {
                out.push(c);
                assert(reader::chunk_views(out@) =~= prior.push(c@));
                assert forall|rest: Seq<reader::Chunk>| #[trigger]
                    (reader::chunk_views(out@) + rest) == prior + (seq![c@] + rest) by {
                    assert(reader::chunk_views(out@) + rest =~= prior + (seq![c@] + rest));
                }
            },
            Err(e) => {
                return Err(e);
            },
        }
        k += 1;
    }
    assert(reader::chunk_views(out@) + Seq::<reader::Chunk>::empty() =~= reader::chunk_views(out@));
    Ok(out)
}

/// Reads a script, given its blocks and what the JSON of each holds.
pub fn parse_script(blocks: &Blocks, parsed: &ParsedBlocks) -> (r: Result<
    Vec<ReadingChunk>,
    ScriptError,
>)
    requires
        parsed.defaults is Some == blocks.defaults is Some,
        parsed.speakers is Some == blocks.speakers is Some,
        parsed.lines is Some == blocks.lines is Some,
        line_fits(blocks.defaults, parsed.defaults),
        line_fits(blocks.speakers, parsed.speakers),
        line_fits(blocks.lines, parsed.lines),
    ensures
        chunks_result(r) == script_outcome(blocks@, *parsed),
{
    if blocks.defaults.is_none() && blocks.speakers.is_none() && blocks.lines.is_none() {
        return Err(ScriptError::NotAScript);
    }
    match (&blocks.defaults, &parsed.defaults) {
        (Some(b), Some(Err(f))) => {
            return Err(json_error(BlockName::Defaults, b, f));
        },
        _ => {},
    }
    match (&blocks.speakers, &parsed.speakers) {
        (Some(b), Some(Err(f))) => {
            return Err(json_error(BlockName::Speakers, b, f));
        },
        _ => {},
    }
    match (&blocks.lines, &parsed.lines) {
        (Some(b), Some(Err(f))) => {
            return Err(json_error(BlockName::Lines, b, f));
        },
        _ => {},
    }
    match (&parsed.speakers, &parsed.lines) {
        (Some(Ok(speakers)), Some(Ok(lines))) => match &parsed.defaults {
            Some(Ok(defaults)) => resolve_script(defaults, speakers, lines),
            _ => {
                let defaults = DefaultsDef { default_pause_seconds: None, speed: None };
                resolve_script(&defaults, speakers, lines)
            },
        },
        _ => Err(ScriptError::NotAScript),
    }
}

proof fn lemma_line_chunks(
    s: Seq<(String, SpeakerDef)>,
    speed: u64,
    pause_ms: u32,
    l: Seq<LineDef>,
    i: int,
)
    requires
        0 <= i <= l.len(),
        line_chunks(s, speed, pause_ms, l, i) is Ok,
    ensures
        line_chunks(s, speed, pause_ms, l, i)->Ok_0.len() == l.len() - i,
        forall|k: int|
            i <= k < l.len() ==> #[trigger] line_chunk(s, speed, pause_ms, k as nat, l[k])
                == Ok::<reader::Chunk, Fault>(
                line_chunks(s, speed, pause_ms, l, i)->Ok_0[k - i],
            ),
    decreases l.len() - i,
{
    if i < l.len() {
        lemma_line_chunks(s, speed, pause_ms, l, i + 1);
        let all = line_chunks(s, speed, pause_ms, l, i)->Ok_0;
        let rest = line_chunks(s, speed, pause_ms, l, i + 1)->Ok_0;
        assert forall|k: int| i <= k < l.len() implies #[trigger] line_chunk(
            s,
            speed,
            pause_ms,
            k as nat,
            l[k],
        ) == Ok::<reader::Chunk, Fault>(all[k - i]) by {
            if k > i {
                assert(all[k - i] == rest[k - i - 1]);
            }
        }
    }
}

/// A script that is read gives one chunk for each of its lines, in their
/// order, with the line's own text.
pub proof fn one_chunk_per_line(
    d: DefaultsDef,
    s: Seq<(String, SpeakerDef)>,
    l: Seq<LineDef>,
    k: int,
)
    requires
        checked_chunks(d, s, l) is Ok,
        0 <= k < l.len(),
    ensures
        checked_chunks(d, s, l)->Ok_0.len() == l.len(),
        checked_chunks(d, s, l)->Ok_0[k].text == l[k].text@,
        voice_of(s, l[k].speaker@, 0) == Some(checked_chunks(d, s, l)->Ok_0[k].slot),
{
    let speed = match d.speed {
        Some(v) => v.bits,
        None => NO_OFFSET,
    };
    let pause_ms = match d.default_pause_seconds {
        Some(p) => doubles::milliseconds(p.bits) as u32,
        None => DEFAULT_PAUSE_MS,
    };
    lemma_line_chunks(s, speed, pause_ms, l, 0);
    assert(line_chunk(s, speed, pause_ms, k as nat, l[k]) is Ok);
}

proof fn lemma_slots()
    ensures
        "main"@ != "sub"@,
        "main"@ != Seq::<char>::empty(),
        "sub"@ != Seq::<char>::empty(),
{
    reveal_strlit("main");
    reveal_strlit("sub");
    assert("main"@.len() == 4);
    assert("sub"@.len() == 3);
    assert(Seq::<char>::empty().len() == 0);
}

/// The speaker of that number is the first of that id.
pub open spec fn is_first_speaker(s: Seq<(String, SpeakerDef)>, j: int, id: Seq<char>) -> bool {
    0 <= j < s.len() && s[j].0@ == id && forall|i: int| 0 <= i < j ==> (#[trigger] s[i]).0@ != id
}

proof fn lemma_voice(s: Seq<(String, SpeakerDef)>, id: Seq<char>, i: int) -> (j: int)
    requires
        0 <= i <= s.len(),
        forall|k: int| 0 <= k < i ==> (#[trigger] s[k]).0@ != id,
    ensures
        voice_of(s, id, i) is Some ==> is_first_speaker(s, j, id) && voice_of(s, id, i)
            == named_slot(slot_text(s[j].1)),
        voice_of(s, id, i) is None ==> (forall|k: int|
            0 <= k < s.len() ==> (#[trigger] s[k]).0@ != id) || (is_first_speaker(s, j, id)
            && named_slot(slot_text(s[j].1)) is None),
    decreases s.len() - i,
{
    if i == s.len() {
        i
    } else if s[i].0@ == id {
        i
    } else {
        lemma_voice(s, id, i + 1)
    }
}

/// Each line of a script that is read is read as it says: its text by the voice of
/// its speaker, with its own speed, caption and pause where it has one; where it
/// has none, the speed and the pause are those of the defaults, and without a
/// default the voice's own speed and half a second.
pub proof fn lines_are_read_as_they_say(
    d: DefaultsDef,
    s: Seq<(String, SpeakerDef)>,
    l: Seq<LineDef>,
    k: int,
) -> (j: int)
    requires
        checked_chunks(d, s, l) is Ok,
        0 <= k < l.len(),
    ensures
        ({
            let c = checked_chunks(d, s, l)->Ok_0[k];
            let line = l[k];
            &&& checked_chunks(d, s, l)->Ok_0.len() == l.len()
            &&& c.text == line.text@
            &&& is_first_speaker(s, j, line.speaker@)
            &&& s[j].1.slot is Some
            &&& s[j].1.slot->0@ == "main"@ ==> c.slot == VoiceSlot::Main
            &&& s[j].1.slot->0@ == "sub"@ ==> c.slot == VoiceSlot::Sub
            &&& s[j].1.slot->0@ == "main"@ || s[j].1.slot->0@ == "sub"@
            &&& line.speed is Some ==> c.speed_offset == line.speed->0.bits
            &&& line.speed is None && d.speed is Some ==> c.speed_offset == d.speed->0.bits
            &&& line.speed is None && d.speed is None ==> c.speed_offset == 0
            &&& line.pause_after is Some ==> c.pause_after_ms == doubles::milliseconds(
                line.pause_after->0.bits,
            )
            &&& line.pause_after is None && d.default_pause_seconds is Some ==> c.pause_after_ms
                == doubles::milliseconds(d.default_pause_seconds->0.bits)
            &&& line.pause_after is None && d.default_pause_seconds is None ==> c.pause_after_ms
                == 500
            &&& line.caption is None ==> c.caption is None
            &&& line.caption is Some && text::is_blank(line.caption->0@) ==> c.caption is None
            &&& line.caption is Some && !text::is_blank(line.caption->0@) ==> c.caption == Some(
                line.caption->0@,
            )
        }),
{
    lemma_slots();
    let speed = match d.speed {
        Some(v) => v.bits,
        None => NO_OFFSET,
    };
    let pause_ms = match d.default_pause_seconds {
        Some(p) => doubles::milliseconds(p.bits) as u32,
        None => DEFAULT_PAUSE_MS,
    };
    lemma_line_chunks(s, speed, pause_ms, l, 0);
    assert(line_chunk(s, speed, pause_ms, k as nat, l[k]) is Ok);
    if d.default_pause_seconds is Some {
        doubles::lemma_milliseconds_fit(d.default_pause_seconds->0.bits);
    }
    if l[k].pause_after is Some {
        doubles::lemma_milliseconds_fit(l[k].pause_after->0.bits);
    }
    lemma_voice(s, l[k].speaker@, 0)
}

/// Nothing is wrong with the speaker: an id without white space at its ends, no
/// voice file of its own, and one of the two voices.
pub open spec fn is_good_speaker(id: Seq<char>, d: SpeakerDef) -> bool {
    &&& id.len() > 0 && text::trimmed(id) == id
    &&& !d.ref_wav
    &&& d.slot is Some
    &&& d.slot->0@ == "main"@ || d.slot->0@ == "sub"@
}

/// Nothing is wrong with the line: a speaker that there is, something to be said,
/// and a speed, a pause and a caption within their limits.
pub open spec fn is_good_line(s: Seq<(String, SpeakerDef)>, line: LineDef) -> bool {
    &&& exists|j: int| 0 <= j < s.len() && (#[trigger] s[j]).0@ == line.speaker@
    &&& !text::is_blank(line.text@)
    &&& line.speed is Some ==> doubles::is_speed(line.speed->0.bits)
    &&& line.pause_after is Some ==> doubles::is_pause(line.pause_after->0.bits)
    &&& line.caption is Some ==> text::is_blank(line.caption->0@) || line.caption->0@.len() <= 200
}

proof fn lemma_speakers_good(s: Seq<(String, SpeakerDef)>, i: int)
    requires
        0 <= i <= s.len(),
    ensures
        speakers_fault(s, i) is None <==> forall|j: int|
            i <= j < s.len() ==> is_good_speaker((#[trigger] s[j]).0@, s[j].1),
    decreases s.len() - i,
{
    lemma_slots();
    if i < s.len() {
        lemma_speakers_good(s, i + 1);
        assert(speaker_fault(s[i].0@, s[i].1) is None <==> is_good_speaker(s[i].0@, s[i].1));
    }
}

proof fn lemma_line_good(
    s: Seq<(String, SpeakerDef)>,
    speed: u64,
    pause_ms: u32,
    index: nat,
    line: LineDef,
)
    requires
        speakers_fault(s, 0) is None,
    ensures
        line_chunk(s, speed, pause_ms, index, line) is Ok <==> is_good_line(s, line),
{
    lemma_slots();
    lemma_speakers_good(s, 0);
    let j = lemma_voice(s, line.speaker@, 0);
    if is_first_speaker(s, j, line.speaker@) {
        assert(is_good_speaker(s[j].0@, s[j].1));
    }
}

proof fn lemma_lines_good(
    s: Seq<(String, SpeakerDef)>,
    speed: u64,
    pause_ms: u32,
    l: Seq<LineDef>,
    i: int,
)
    requires
        0 <= i <= l.len(),
        speakers_fault(s, 0) is None,
    ensures
        line_chunks(s, speed, pause_ms, l, i) is Ok <==> forall|k: int|
            i <= k < l.len() ==> is_good_line(s, #[trigger] l[k]),
        forall|k: int|
            i <= k < l.len() && !is_good_line(s, #[trigger] l[k]) && (forall|m: int|
                i <= m < k ==> is_good_line(s, #[trigger] l[m])) ==> line_chunks(
                s,
                speed,
                pause_ms,
                l,
                i,
            ) == Err::<Seq<reader::Chunk>, Fault>(
                line_chunk(s, speed, pause_ms, k as nat, l[k])->Err_0,
            ),
    decreases l.len() - i,
{
    if i < l.len() {
        lemma_line_good(s, speed, pause_ms, i as nat, l[i]);
        lemma_lines_good(s, speed, pause_ms, l, i + 1);
        assert forall|k: int|
            i <= k < l.len() && !is_good_line(s, #[trigger] l[k]) && (forall|m: int|
                i <= m < k ==> is_good_line(s, #[trigger] l[m])) implies line_chunks(
            s,
            speed,
            pause_ms,
            l,
            i,
        ) == Err::<Seq<reader::Chunk>, Fault>(
            line_chunk(s, speed, pause_ms, k as nat, l[k])->Err_0,
        ) by {
            lemma_line_good(s, speed, pause_ms, k as nat, l[k]);
            if k > i {
                assert(is_good_line(s, l[i]));
            }
        }
    }
}

/// The defaults are within their limits.
pub open spec fn are_good_defaults(d: DefaultsDef) -> bool {
    &&& d.default_pause_seconds is Some ==> doubles::is_pause(d.default_pause_seconds->0.bits)
    &&& d.speed is Some ==> doubles::is_speed(d.speed->0.bits)
}

/// A script is read exactly where nothing is wrong with its defaults, with any of
/// its speakers and with any of its lines, and it has a line at all.
pub proof fn read_iff_nothing_is_wrong(
    d: DefaultsDef,
    s: Seq<(String, SpeakerDef)>,
    l: Seq<LineDef>,
)
    ensures
        checked_chunks(d, s, l) is Ok <==> are_good_defaults(d) && (forall|j: int|
            0 <= j < s.len() ==> is_good_speaker((#[trigger] s[j]).0@, s[j].1)) && l.len() > 0 && (
        forall|k: int| 0 <= k < l.len() ==> is_good_line(s, #[trigger] l[k])),
{
    lemma_speakers_good(s, 0);
    let speed = match d.speed {
        Some(v) => v.bits,
        None => NO_OFFSET,
    };
    let pause_ms = match d.default_pause_seconds {
        Some(p) => doubles::milliseconds(p.bits) as u32,
        None => DEFAULT_PAUSE_MS,
    };
    if speakers_fault(s, 0) is None {
        lemma_lines_good(s, speed, pause_ms, l, 0);
    }
}

/// Of a script with a line of which something is wrong, and nothing before it, that
/// line is told with its number: that its speaker is unknown, else that it is
/// blank, else the speed, the pause or the caption that is out of its limits.
pub proof fn the_first_bad_line_is_told(
    d: DefaultsDef,
    s: Seq<(String, SpeakerDef)>,
    l: Seq<LineDef>,
    k: int,
)
    requires
        are_good_defaults(d),
        forall|j: int| 0 <= j < s.len() ==> is_good_speaker((#[trigger] s[j]).0@, s[j].1),
        0 <= k < l.len(),
        !is_good_line(s, l[k]),
        forall|m: int| 0 <= m < k ==> is_good_line(s, #[trigger] l[m]),
    ensures
        ({
            let line = l[k];
            let known = exists|j: int| 0 <= j < s.len() && (#[trigger] s[j]).0@ == line.speaker@;
            let slow = line.speed is Some && !doubles::is_speed(line.speed->0.bits);
            let long = line.pause_after is Some && !doubles::is_pause(line.pause_after->0.bits);
            let f = checked_chunks(d, s, l)->Err_0;
            &&& checked_chunks(d, s, l) is Err
            &&& !known ==> f == (Fault::UnknownSpeaker { index: k as nat, speaker: line.speaker@ })
            &&& known && text::is_blank(line.text@) ==> f == (Fault::EmptyText { index: k as nat })
            &&& known && !text::is_blank(line.text@) && slow ==> f == (Fault::OutOfRange {
                index: Some(k as nat),
                key: "speed"@,
                bits: line.speed->0.bits,
                shown: line.speed->0.shown@,
            })
            &&& known && !text::is_blank(line.text@) && !slow && long ==> f == (Fault::OutOfRange {
                index: Some(k as nat),
                key: "pause_after"@,
                bits: line.pause_after->0.bits,
                shown: line.pause_after->0.shown@,
            })
            &&& known && !text::is_blank(line.text@) && !slow && !long ==> f == (
            Fault::CaptionTooLong { index: k as nat, len: line.caption->0@.len() })
        }),
{
    lemma_slots();
    lemma_speakers_good(s, 0);
    let speed = match d.speed {
        Some(v) => v.bits,
        None => NO_OFFSET,
    };
    let pause_ms = match d.default_pause_seconds {
        Some(p) => doubles::milliseconds(p.bits) as u32,
        None => DEFAULT_PAUSE_MS,
    };
    lemma_lines_good(s, speed, pause_ms, l, 0);
    lemma_line_good(s, speed, pause_ms, k as nat, l[k]);
    let j = lemma_voice(s, l[k].speaker@, 0);
    if is_first_speaker(s, j, l[k].speaker@) {
        assert(is_good_speaker(s[j].0@, s[j].1));
    }
}

/// What is wrong with the defaults is told before anything else, the pause before
/// the speed; then what is wrong with the first speaker of which anything is; then
/// that there are no lines.
pub proof fn what_is_told_before_the_lines(
    d: DefaultsDef,
    s: Seq<(String, SpeakerDef)>,
    l: Seq<LineDef>,
    j: int,
)
    requires
        0 <= j <= s.len(),
        forall|i: int| 0 <= i < j ==> is_good_speaker((#[trigger] s[i]).0@, s[i].1),
    ensures
        d.default_pause_seconds is Some && !doubles::is_pause(d.default_pause_seconds->0.bits)
            ==> checked_chunks(d, s, l) == Err::<Seq<reader::Chunk>, Fault>(
            Fault::OutOfRange {
                index: None,
                key: "default_pause_seconds"@,
                bits: d.default_pause_seconds->0.bits,
                shown: d.default_pause_seconds->0.shown@,
            },
        ),
        (d.default_pause_seconds is Some ==> doubles::is_pause(d.default_pause_seconds->0.bits))
            && d.speed is Some && !doubles::is_speed(d.speed->0.bits) ==> checked_chunks(d, s, l)
            == Err::<Seq<reader::Chunk>, Fault>(
            Fault::OutOfRange {
                index: None,
                key: "speed"@,
                bits: d.speed->0.bits,
                shown: d.speed->0.shown@,
            },
        ),
        are_good_defaults(d) && j < s.len() && (s[j].0@.len() == 0 || text::trimmed(s[j].0@)
            != s[j].0@) ==> checked_chunks(d, s, l) == Err::<Seq<reader::Chunk>, Fault>(
            Fault::InvalidSpeakerId { id: s[j].0@ },
        ),
        are_good_defaults(d) && j < s.len() && s[j].0@.len() > 0 && text::trimmed(s[j].0@)
            == s[j].0@ && s[j].1.ref_wav ==> checked_chunks(d, s, l) == Err::<
            Seq<reader::Chunk>,
            Fault,
        >(Fault::UnsupportedRefWav { speaker_id: s[j].0@ }),
        are_good_defaults(d) && j < s.len() && s[j].0@.len() > 0 && text::trimmed(s[j].0@)
            == s[j].0@ && !s[j].1.ref_wav && !is_good_speaker(s[j].0@, s[j].1) ==> checked_chunks(
            d,
            s,
            l,
        ) == Err::<Seq<reader::Chunk>, Fault>(
            Fault::InvalidSlot {
                speaker_id: s[j].0@,
                slot: (match s[j].1.slot {
                    Some(x) => x@,
                    None => Seq::empty(),
                }),
            },
        ),
        are_good_defaults(d) && j == s.len() && l.len() == 0 ==> checked_chunks(d, s, l) == Err::<
            Seq<reader::Chunk>,
            Fault,
        >(Fault::EmptyLines),
{
    lemma_slots();
    lemma_speakers_good(s, 0);
    lemma_first_bad_speaker(s, 0, j);
}

proof fn lemma_first_bad_speaker(s: Seq<(String, SpeakerDef)>, i: int, j: int)
    requires
        0 <= i <= j <= s.len(),
        forall|k: int| i <= k < j ==> is_good_speaker((#[trigger] s[k]).0@, s[k].1),
    ensures
        speakers_fault(s, i) == speakers_fault(s, j),
    decreases j - i,
{
    lemma_slots();
    if i < j {
        assert(is_good_speaker(s[i].0@, s[i].1));
        lemma_first_bad_speaker(s, i + 1, j);
    }
}

/// A script is read only where it has speakers and lines that could both be read,
/// and defaults that could be, if it has any; then it is what these say. A block
/// that could not be read is told with the line of the file.
pub proof fn what_a_script_gives(b: BlockSet, p: ParsedBlocks)
    requires
        p.defaults is Some == b.defaults is Some,
        p.speakers is Some == b.speakers is Some,
        p.lines is Some == b.lines is Some,
    ensures
        script_outcome(b, p) is Ok ==> p.speakers is Some && p.speakers->0 is Ok && p.lines is Some
            && p.lines->0 is Ok && (p.defaults is Some ==> p.defaults->0 is Ok),
        p.speakers is Some && p.speakers->0 is Ok && p.lines is Some && p.lines->0 is Ok
            && p.defaults is Some && p.defaults->0 is Ok ==> script_outcome(b, p) == checked_chunks(
            p.defaults->0->Ok_0,
            p.speakers->0->Ok_0@,
            p.lines->0->Ok_0@,
        ),
        p.speakers is Some && p.speakers->0 is Ok && p.lines is Some && p.lines->0 is Ok
            && p.defaults is None ==> script_outcome(b, p) == checked_chunks(
            (DefaultsDef { default_pause_seconds: None, speed: None }),
            p.speakers->0->Ok_0@,
            p.lines->0->Ok_0@,
        ),
        p.defaults is Some && p.defaults->0 is Err ==> script_outcome(b, p) is Err && (
        script_outcome(b, p)->Err_0 matches Fault::InvalidJson {
            block,
            line_in_block,
            file_line,
            detail,
        } && block == "defaults"@ && line_in_block == p.defaults->0->Err_0.line && detail
            == p.defaults->0->Err_0.detail@ && (line_in_block > 0 ==> file_line
            == b.defaults->0.start_file_line + line_in_block - 1)),
        !(p.defaults is Some && p.defaults->0 is Err) && p.speakers is Some && p.speakers->0 is Err
            ==> script_outcome(b, p) is Err && (script_outcome(b, p)->Err_0 matches Fault::InvalidJson {
            block,
            line_in_block,
            file_line,
            detail,
        } && block == "speakers"@ && line_in_block == p.speakers->0->Err_0.line && detail
            == p.speakers->0->Err_0.detail@ && (line_in_block > 0 ==> file_line
            == b.speakers->0.start_file_line + line_in_block - 1)),
        !(p.defaults is Some && p.defaults->0 is Err) && !(p.speakers is Some
            && p.speakers->0 is Err) && p.lines is Some && p.lines->0 is Err ==> script_outcome(
            b,
            p,
        ) is Err && (script_outcome(b, p)->Err_0 matches Fault::InvalidJson {
            block,
            line_in_block,
            file_line,
            detail,
        } && block == "lines"@ && line_in_block == p.lines->0->Err_0.line && detail
            == p.lines->0->Err_0.detail@ && (line_in_block > 0 ==> file_line
            == b.lines->0.start_file_line + line_in_block - 1)),
        !(p.defaults is Some && p.defaults->0 is Err) && !(p.speakers is Some
            && p.speakers->0 is Err) && !(p.lines is Some && p.lines->0 is Err) && (
        p.speakers is None || p.lines is None) ==> script_outcome(b, p) == Err::<
            Seq<reader::Chunk>,
            Fault,
        >(Fault::NotAScript),
{
}

/// A line opens a block where it holds, white space at its ends aside, the fence
/// with `json` and the name of the block.
pub proof fn a_fence_names_its_block(line: Seq<char>)
    ensures
        opened(line) == Some(BlockName::Defaults) <==> text::trimmed(line) == "```json defaults"@,
        opened(line) == Some(BlockName::Speakers) <==> text::trimmed(line) == "```json speakers"@,
        opened(line) == Some(BlockName::Lines) <==> text::trimmed(line) == "```json lines"@,
{
    reveal_strlit("```json ");
    reveal_strlit("defaults");
    reveal_strlit("speakers");
    reveal_strlit("lines");
    reveal_strlit("```json defaults");
    reveal_strlit("```json speakers");
    reveal_strlit("```json lines");
    assert("```json "@ + "defaults"@ =~= "```json defaults"@);
    assert("```json "@ + "speakers"@ =~= "```json speakers"@);
    assert("```json "@ + "lines"@ =~= "```json lines"@);
    assert("```json defaults"@[8] == 'd');
    assert("```json speakers"@[8] == 's');
    assert("```json lines"@[8] == 'l');
}

/// The lines, each followed by a newline.
pub open spec fn ended_lines(l: Seq<Seq<char>>) -> Seq<char> {
    Seq::new(l.len(), |k: int| l[k] + seq!['\n']).flatten()
}

proof fn lemma_ended_push(l: Seq<Seq<char>>, x: Seq<char>)
    ensures
        ended_lines(l.push(x)) == ended_lines(l) + x + seq!['\n'],
{
    let a = Seq::new(l.len(), |k: int| l[k] + seq!['\n']);
    let b = Seq::new(l.push(x).len(), |k: int| l.push(x)[k] + seq!['\n']);
    assert(b =~= a + seq![x + seq!['\n']]);
    vstd::seq_lib::lemma_flatten_concat(a, seq![x + seq!['\n']]);
    seq![x + seq!['\n']].lemma_flatten_one_element();
    assert(ended_lines(l.push(x)) =~= ended_lines(l) + x + seq!['\n']);
}

proof fn lemma_joined(l: Seq<Seq<char>>, a: int, b: int)
    requires
        0 <= a < b <= l.len(),
    ensures
        joined_lines(l, a, b) + seq!['\n'] == ended_lines(l.subrange(a, b)),
    decreases b - a,
{
    reveal_strlit("\n");
    assert("\n"@ =~= seq!['\n']);
    assert(l.subrange(a, b) =~= l.subrange(a, b - 1).push(l[b - 1]));
    lemma_ended_push(l.subrange(a, b - 1), l[b - 1]);
    if a == b - 1 {
        assert(l.subrange(a, a) =~= Seq::<Seq<char>>::empty());
        let none = Seq::new(l.subrange(a, a).len(), |k: int| l.subrange(a, a)[k] + seq!['\n']);
        assert(none =~= Seq::<Seq<char>>::empty());
        assert(joined_lines(l, a, b) + seq!['\n'] =~= ended_lines(l.subrange(a, b)));
    } else {
        lemma_joined(l, a, b - 1);
        assert(joined_lines(l, a, b) + seq!['\n'] =~= ended_lines(l.subrange(a, b)));
    }
}

proof fn lemma_close_at(l: Seq<Seq<char>>, i: int, j: int)
    requires
        0 <= i <= j <= l.len(),
        forall|k: int| i <= k < j ==> text::trimmed(#[trigger] l[k]) != "```"@,
        j < l.len() ==> text::trimmed(l[j]) == "```"@,
    ensures
        fence_close(l, i) == j,
    decreases j - i,
{
    if i < j {
        assert(text::trimmed(l[i]) != "```"@);
        lemma_close_at(l, i + 1, j);
    }
}

proof fn lemma_no_fence(l: Seq<Seq<char>>, i: int, o: int, b: BlockSet)
    requires
        0 <= i <= o <= l.len(),
        forall|k: int| i <= k < o ==> opened(#[trigger] l[k]) is None,
    ensures
        blocks_from(l, i, b) == blocks_from(l, o, b),
    decreases o - i,
{
    if i < o {
        assert(opened(l[i]) is None);
        lemma_no_fence(l, i + 1, o, b);
    }
}

/// Where no line opens a block any more, no block is added.
pub proof fn no_fence_no_block(l: Seq<Seq<char>>, i: int, b: BlockSet)
    requires
        0 <= i <= l.len(),
        forall|k: int| i <= k < l.len() ==> opened(#[trigger] l[k]) is None,
    ensures
        blocks_from(l, i, b) == Ok::<BlockSet, Fault>(b),
{
    lemma_no_fence(l, i, l.len() as int, b);
}

/// The next line that opens a block, the `o`-th, opens it up to the next line that
/// is a fence by itself, the `j`-th: its text is all lines between them, in order,
/// and its first line has the number that an editor shows. Search goes on behind
/// it, with that block and no other added. A second block of one name is a fault,
/// and so is one that is never closed.
pub proof fn a_block_holds_what_its_fences_enclose(
    l: Seq<Seq<char>>,
    i: int,
    b: BlockSet,
    o: int,
    n: BlockName,
    j: int,
    x: Block,
    after: BlockSet,
)
    requires
        0 <= i <= o < j <= l.len(),
        forall|k: int| i <= k < o ==> opened(#[trigger] l[k]) is None,
        opened(l[o]) == Some(n),
        forall|k: int| o < k < j ==> text::trimmed(#[trigger] l[k]) != "```"@,
        j < l.len() ==> text::trimmed(l[j]) == "```"@,
        x.start_file_line == o + 2,
        j == o + 1 ==> x.body.len() == 0,
        j > o + 1 ==> x.body + seq!['\n'] == ended_lines(l.subrange(o + 1, j)),
        n == BlockName::Defaults ==> after.defaults == Some(x) && after.speakers == b.speakers
            && after.lines == b.lines,
        n == BlockName::Speakers ==> after.speakers == Some(x) && after.defaults == b.defaults
            && after.lines == b.lines,
        n == BlockName::Lines ==> after.lines == Some(x) && after.defaults == b.defaults
            && after.speakers == b.speakers,
    ensures
        j == l.len() ==> blocks_from(l, i, b) == Err::<BlockSet, Fault>(Fault::UnclosedFence),
        j < l.len() && ((n == BlockName::Defaults && b.defaults is Some) || (n
            == BlockName::Speakers && b.speakers is Some) || (n == BlockName::Lines
            && b.lines is Some)) ==> blocks_from(l, i, b) == Err::<BlockSet, Fault>(
            Fault::DuplicateBlock(
                if n == BlockName::Defaults {
                    "defaults"@
                } else if n == BlockName::Speakers {
                    "speakers"@
                } else {
                    "lines"@
                },
            ),
        ),
        j < l.len() && !((n == BlockName::Defaults && b.defaults is Some) || (n
            == BlockName::Speakers && b.speakers is Some) || (n == BlockName::Lines
            && b.lines is Some)) ==> blocks_from(l, i, b) == blocks_from(l, j + 1, after),
{
    lemma_no_fence(l, i, o, b);
    lemma_close_at(l, o + 1, j);
    let body = joined_lines(l, o + 1, j);
    if j > o + 1 {
        lemma_joined(l, o + 1, j);
        assert((body + seq!['\n']).drop_last() =~= body);
        assert((x.body + seq!['\n']).drop_last() =~= x.body);
    } else {
        assert(x.body =~= Seq::<char>::empty());
    }
    assert(x == (Block { body, start_file_line: (o + 2) as nat }));
    assert(with_block(b, n, x) == after);
}

proof fn lemma_lines_rejoin(s: Seq<char>, i: int)
    requires
        0 <= i <= s.len(),
        !s.contains('\r'),
    ensures
        ended_lines(raw_lines_from(s, i)) == s.skip(i) + seq!['\n'],
    decreases s.len() - i,
{
    text::lemma_line_end(s, i);
    let e = text::line_end(s, i);
    let x = s.subrange(i, e);
    if x.len() > 0 {
        assert(x.last() == s[e - 1]);
        assert(s.contains(s[e - 1]));
    }
    let all = raw_lines_from(s, i);
    let a = Seq::new(all.len(), |k: int| all[k] + seq!['\n']);
    if e == s.len() {
        assert(a =~= seq![x + seq!['\n']]);
        seq![x + seq!['\n']].lemma_flatten_one_element();
        assert(s.skip(i) =~= x);
    } else {
        lemma_lines_rejoin(s, e + 1);
        let rest = raw_lines_from(s, e + 1);
        assert(a.drop_first() =~= Seq::new(rest.len(), |k: int| rest[k] + seq!['\n'])) by {
            assert forall|k: int| 0 <= k < rest.len() implies #[trigger] all[k + 1] == rest[k] by {}
        }
        assert(a[0] == x + seq!['\n']);
        assert(s.skip(i) + seq!['\n'] =~= x + seq!['\n'] + (s.skip(e + 1) + seq!['\n']));
    }
}

proof fn lemma_lines_hold_no_newline(s: Seq<char>, i: int, k: int)
    requires
        0 <= i <= s.len(),
        0 <= k < raw_lines_from(s, i).len(),
    ensures
        !raw_lines_from(s, i)[k].contains('\n'),
    decreases s.len() - i,
{
    text::lemma_line_end(s, i);
    let e = text::line_end(s, i);
    let x = s.subrange(i, e);
    let all = raw_lines_from(s, i);
    if k == 0 {
        assert forall|j: int| 0 <= j < all[0].len() implies all[0][j] != '\n' by {
            assert(all[0][j] == x[j]);
            assert(x[j] == s[i + j]);
        }
    } else {
        lemma_lines_hold_no_newline(s, e + 1, k - 1);
        assert(all[k] == raw_lines_from(s, e + 1)[k - 1]);
    }
}

/// The lines of a script are all of it, cut at each newline: each with a newline
/// behind it, they give the script back. (Carriage returns are another matter.)
pub proof fn the_lines_of_a_script_are_all_of_it(s: Seq<char>, k: int)
    requires
        !s.contains('\r'),
        !(s.len() > 0 && s[0] == '\u{feff}'),
        0 <= k < script_lines(s).len(),
    ensures
        ended_lines(script_lines(s)) == s + seq!['\n'],
        !script_lines(s)[k].contains('\n'),
{
    lemma_lines_rejoin(s, 0);
    assert(s.skip(0) =~= s);
    lemma_lines_hold_no_newline(s, 0, k);
}

} // verus!
