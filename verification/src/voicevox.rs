//! The VOICEVOX core: whether its files are there, and how it is started.
use vstd::prelude::*;

use crate::reader::to_ascii_lowercase;
use crate::reader;
use crate::text::{
    contains_text, ends_with, owned, push_text, same, signed_decimal_text, starts_with,
};
use crate::text;

verus! {

/// How deep below the directory files are looked for.
pub const MAX_VISIT_DEPTH: u32 = 8;

/// A file or directory, with what is in it.
#[derive(Debug, PartialEq, Eq)]
pub struct Node {
    pub path: String,
    /// The last name of the path, where it can be read as text.
    pub name: Option<String>,
    pub is_file: bool,
    pub is_dir: bool,
    /// What is in it, in the order in which it is listed; nothing where it
    /// cannot be listed.
    pub entries: Vec<Node>,
}

/// What is seen of a `Node` on the way.
pub struct Seen {
    pub path: Seq<char>,
    pub name: Option<Seq<char>>,
    pub is_file: bool,
    pub is_dir: bool,
}

impl View for Node {
    type V = Seen;

    open spec fn view(&self) -> Seen {
        Seen {
            path: self.path@,
            name: text::opt_text(self.name),
            is_file: self.is_file,
            is_dir: self.is_dir,
        }
    }
}

/// What is met going through the entries from the `i`-th on: each, then what is
/// in it, down to the limit.
pub open spec fn met(n: Seq<Node>, i: int, depth: int) -> Seq<Seen>
    decreases MAX_VISIT_DEPTH + 1 - depth, n.len() - i,
    when 0 <= i <= n.len() && 0 <= depth <= MAX_VISIT_DEPTH
{
    if i == n.len() {
        Seq::empty()
    } else {
        seq![n[i]@] + below(n[i], depth) + met(n, i + 1, depth)
    }
}

/// What is met in one entry.
pub open spec fn below(n: Node, depth: int) -> Seq<Seen>
    decreases MAX_VISIT_DEPTH + 1 - depth, 0int,
    when 0 <= depth <= MAX_VISIT_DEPTH
{
    if n.is_dir && depth < MAX_VISIT_DEPTH {
        met(n.entries@, 0, depth + 1)
    } else {
        Seq::empty()
    }
}

/// What the nodes say.
pub open spec fn seen_of(v: Seq<&Node>) -> Seq<Seen> {
    Seq::new(v.len(), |i: int| v[i]@)
}

fn visit_depth<'a>(nodes: &'a Vec<Node>, depth: u32, out: &mut Vec<&'a Node>)
    requires
        depth <= MAX_VISIT_DEPTH,
    ensures
        seen_of(final(out)@) == seen_of(old(out)@) + met(nodes@, 0, depth as int),
    decreases MAX_VISIT_DEPTH + 1 - depth,
{
    let ghost start = seen_of(out@);
    let mut i: usize = 0;
    assert(start + met(nodes@, 0, depth as int) =~= seen_of(out@) + met(nodes@, 0, depth as int));
    while i < nodes.len()
        invariant
            i <= nodes@.len(),
            depth <= MAX_VISIT_DEPTH,
            seen_of(out@) + met(nodes@, i as int, depth as int) == start + met(
                nodes@,
                0,
                depth as int,
            ),
        decreases nodes@.len() - i,
    {
        let node = &nodes[i];
        let ghost before = seen_of(out@);
        let ghost inside = below(*node, depth as int);
        let ghost rest = met(nodes@, i + 1, depth as int);
        out.push(node);
        assert(seen_of(out@) =~= before.push(node@));
        if node.is_dir && depth < MAX_VISIT_DEPTH {
            visit_depth(&node.entries, depth + 1, out);
        } else {
            assert(seen_of(out@) =~= before.push(node@) + inside);
        }
        assert(seen_of(out@) == before.push(node@) + inside);
        assert(seen_of(out@) + rest =~= before + (seq![node@] + inside + rest));
        i += 1;
    }
    assert(seen_of(out@) + Seq::<Seen>::empty() =~= seen_of(out@));
}

/// Goes through everything below a directory.
fn visit<'a>(nodes: &'a Vec<Node>) -> (r: Vec<&'a Node>)
    ensures
        seen_of(r@) == met(nodes@, 0, 0),
{
    let mut out: Vec<&'a Node> = Vec::new();
    visit_depth(nodes, 0, &mut out);
    assert(seen_of(out@) =~= met(nodes@, 0, 0));
    out
}

/// What is looked for.
#[derive(Clone, Copy, Debug, PartialEq, Eq, Structural)]
pub enum Asset {
    /// The library of the core.
    Core,
    /// The library that runs the models.
    Runtime,
    /// The directory of the dictionary.
    Dictionary,
    /// A voice.
    Voice,
}

/// The name is that of what is looked for, in whatever case it is written.
pub open spec fn names_asset(name: Seq<char>, a: Asset) -> bool {
    let l = reader::in_ascii_lower(name);
    match a {
        Asset::Core => l == "voicevox_core.dll"@,
        Asset::Runtime => text::has_text(l, "onnxruntime"@) && ".dll"@.is_suffix_of(l),
        Asset::Dictionary => "open_jtalk_dic"@.is_prefix_of(l),
        Asset::Voice => ".vvm"@.is_suffix_of(l),
    }
}

/// This is what is looked for: of the right name, and a file, or for the
/// dictionary a directory.
pub open spec fn is_asset(s: Seen, a: Asset) -> bool {
    (if a == Asset::Dictionary {
        s.is_dir
    } else {
        s.is_file
    }) && s.name is Some && names_asset(s.name->0, a)
}

fn matches_asset(node: &Node, a: Asset) -> (r: bool)
    ensures
        r == is_asset(node@, a),
{
    let right_kind = if a == Asset::Dictionary {
        node.is_dir
    } else {
        node.is_file
    };
    if !right_kind {
        return false;
    }
    match &node.name {
        None => false,
        Some(name) => {
            let l = to_ascii_lowercase(name.as_str());
            match a {
                Asset::Core => same(l.as_str(), "voicevox_core.dll"),
                Asset::Runtime => contains_text(l.as_str(), "onnxruntime") && ends_with(
                    l.as_str(),
                    ".dll",
                ),
                Asset::Dictionary => starts_with(l.as_str(), "open_jtalk_dic"),
                Asset::Voice => ends_with(l.as_str(), ".vvm"),
            }
        },
    }
}

/// The paths of what is looked for, among the first `n` met, in order.
pub open spec fn found(s: Seq<Seen>, a: Asset, n: int) -> Seq<Seq<char>>
    decreases n,
{
    if n <= 0 {
        Seq::empty()
    } else if is_asset(s[n - 1], a) {
        found(s, a, n - 1).push(s[n - 1].path)
    } else {
        found(s, a, n - 1)
    }
}

/// All paths of what is looked for below a directory.
pub open spec fn all_found(nodes: Seq<Node>, a: Asset) -> Seq<Seq<char>> {
    let s = met(nodes, 0, 0);
    found(s, a, s.len() as int)
}

/// Collects the paths of what is looked for.
pub fn collect_files(nodes: &Vec<Node>, a: Asset) -> (r: Vec<String>)
    ensures
        text::texts(r@) == all_found(nodes@, a),
{
    let all = visit(nodes);
    let ghost s = met(nodes@, 0, 0);
    let mut out: Vec<String> = Vec::new();
    let mut i: usize = 0;
    assert(s.len() == all@.len());
    assert(text::texts(out@) =~= found(s, a, 0));
    while i < all.len()
        invariant
            i <= all@.len(),
            s == seen_of(all@),
            text::texts(out@) == found(s, a, i as int),
        decreases all@.len() - i,
    {
        let ghost before = text::texts(out@);
        assert(s[i as int] == all@[i as int]@);
        if matches_asset(all[i], a) {
            out.push(owned(all[i].path.as_str()));
            assert(text::texts(out@) =~= before.push(s[i as int].path));
        }
        i += 1;
    }
    out
}

/// The first of the paths.
pub open spec fn first_of(s: Seq<Seq<char>>) -> Option<Seq<char>> {
    if s.len() == 0 {
        None
    } else {
        Some(s[0])
    }
}

/// Finds the path of the first of what is looked for.
pub fn find_file(nodes: &Vec<Node>, a: Asset) -> (r: Option<String>)
    ensures
        text::opt_text(r) == first_of(all_found(nodes@, a)),
{
    let all = collect_files(nodes, a);
    assert(all@.len() == text::texts(all@).len());
    if all.len() == 0 {
        None
    } else {
        assert(text::texts(all@)[0] == all@[0]@);
        Some(owned(all[0].as_str()))
    }
}

/// Whether everything that the core needs is there.
pub fn assets_ready(dir_is_dir: bool, nodes: &Vec<Node>) -> (r: bool)
    ensures
        r == (dir_is_dir && all_found(nodes@, Asset::Core).len() > 0 && all_found(
            nodes@,
            Asset::Runtime,
        ).len() > 0 && all_found(nodes@, Asset::Dictionary).len() > 0 && all_found(
            nodes@,
            Asset::Voice,
        ).len() > 0),
{
    if !dir_is_dir {
        return false;
    }
    let core = find_file(nodes, Asset::Core).is_some();
    let runtime = find_file(nodes, Asset::Runtime).is_some();
    let dict = find_file(nodes, Asset::Dictionary).is_some();
    let voice = find_file(nodes, Asset::Voice).is_some();
    core && runtime && dict && voice
}

/// The code for success.
pub const VOICEVOX_RESULT_OK: i32 = 0;

/// What is told of a call that failed.
pub open spec fn call_failed_text(what: Seq<char>, code: int) -> Seq<char> {
    what + "に失敗しました (voicevox コード "@ + text::signed_decimal(code) + ")"@
}

/// Judges the code that a call returned.
pub fn check(code: i32, what: &str) -> (r: Result<(), String>)
    ensures
        r is Ok <==> code == VOICEVOX_RESULT_OK,
        r matches Err(e) ==> e@ == call_failed_text(what@, code as int),
{
    if code == VOICEVOX_RESULT_OK {
        Ok(())
    } else {
        let mut out = owned(what);
        push_text(&mut out, "に失敗しました (voicevox コード ");
        push_text(&mut out, signed_decimal_text(code).as_str());
        push_text(&mut out, ")");
        Err(out)
    }
}

/// What comes of speaking a text: the sound, or what went wrong.
pub fn synthesize(code: i32, sound: Option<Vec<u8>>) -> (r: Result<Vec<u8>, String>)
    ensures
        r is Ok <==> code == VOICEVOX_RESULT_OK && sound is Some && sound->0@.len() > 0,
        r matches Ok(b) ==> sound == Some(b),
        r matches Err(e) ==> e@ == (if code != VOICEVOX_RESULT_OK {
            call_failed_text("音声合成"@, code as int)
        } else {
            NO_SOUND@
        }),
{
    match check(code, "音声合成") {
        Err(e) => Err(e),
        Ok(_) => match sound {
            Some(b) => {
                if b.len() == 0 {
                    Err(owned(NO_SOUND))
                } else {
                    Ok(b)
                }
            },
            None => Err(owned(NO_SOUND)),
        },
    }
}

/// What comes of analysing a text: the analysis, or what went wrong.
pub fn openjtalk_analyze(code: i32, analysis: Option<String>) -> (r: Result<String, String>)
    ensures
        r is Ok <==> code == VOICEVOX_RESULT_OK && analysis is Some,
        r matches Ok(a) ==> analysis == Some(a),
        r matches Err(e) ==> e@ == (if code != VOICEVOX_RESULT_OK {
            call_failed_text("解析"@, code as int)
        } else {
            NO_ANALYSIS@
        }),
{
    match check(code, "解析") {
        Err(e) => Err(e),
        Ok(_) => match analysis {
            Some(a) => Ok(a),
            None => Err(owned(NO_ANALYSIS)),
        },
    }
}

/// What comes of asking for the list of voices.
pub fn metas_json(metas: Option<String>) -> (r: Result<String, String>)
    ensures
        r is Ok <==> metas is Some,
        r matches Ok(m) ==> metas == Some(m),
        r matches Err(e) ==> e@ == NO_METAS@,
{
    match metas {
        Some(m) => Ok(m),
        None => Err(owned(NO_METAS)),
    }
}

pub const NO_SOUND: &'static str = "合成結果が空でした";

pub const NO_ANALYSIS: &'static str = "解析結果が空";

pub const NO_METAS: &'static str = "メタ情報の取得に失敗";

/// What the core is started from.
#[derive(Debug, PartialEq, Eq)]
pub struct EngineFiles {
    pub core: String,
    pub runtime: Option<String>,
    pub dictionary: Option<String>,
    pub voices: Vec<String>,
}

pub const CORE_MISSING: &'static str =
    "voicevox_core.dll が見つかりません (資産ダウンロードを実行してください)";

pub const DICTIONARY_MISSING: &'static str =
    "Open JTalk 辞書 (open_jtalk_dic_*) が見つかりません";

pub const NO_VOICE_LOADED: &'static str =
    "音声モデル (.vvm) を 1 つも読み込めませんでした";

/// Finds what the core is started from, or says why it cannot be begun. That
/// the dictionary is missing is told only once the runtime was loaded.
pub fn engine_files(dir_is_dir: bool, dir: &str, nodes: &Vec<Node>) -> (r: Result<
    EngineFiles,
    String,
>)
    ensures
        match r {
            Ok(f) => dir_is_dir && Some(f.core@) == first_of(all_found(nodes@, Asset::Core))
                && text::opt_text(f.runtime) == first_of(all_found(nodes@, Asset::Runtime))
                && text::opt_text(f.dictionary) == first_of(all_found(nodes@, Asset::Dictionary))
                && text::texts(f.voices@) == all_found(nodes@, Asset::Voice),
            Err(e) => if !dir_is_dir {
                e@ == "voicevox 資産ディレクトリがありません: "@ + dir@
            } else {
                all_found(nodes@, Asset::Core).len() == 0 && e@ == CORE_MISSING@
            },
        },
{
    if !dir_is_dir {
        let mut out = owned("voicevox 資産ディレクトリがありません: ");
        push_text(&mut out, dir);
        return Err(out);
    }
    match find_file(nodes, Asset::Core) {
        None => Err(owned(CORE_MISSING)),
        Some(core) => Ok(
            EngineFiles {
                core,
                runtime: find_file(nodes, Asset::Runtime),
                dictionary: find_file(nodes, Asset::Dictionary),
                voices: collect_files(nodes, Asset::Voice),
            },
        ),
    }
}

/// How far the start of the core is.
#[derive(Clone, Copy, Debug, PartialEq, Eq, Structural)]
pub enum InitStage {
    /// The runtime is loaded.
    Runtime,
    /// The dictionary is opened.
    Dictionary,
    /// The synthesizer is made.
    Synthesizer,
    /// The voice with that number is loaded.
    Voice(usize),
    Done(InitEnd),
}

/// How the start of the core ended.
#[derive(Clone, Copy, Debug, PartialEq, Eq, Structural)]
pub enum InitEnd {
    Ready,
    /// The runtime did not load.
    RuntimeFailed(i32),
    DictionaryMissing,
    DictionaryFailed(i32),
    /// The synthesizer was not made; the dictionary is closed.
    SynthesizerFailed(i32),
    /// No voice was loaded; the synthesizer is deleted and the dictionary closed.
    NoVoice,
}

/// The start of the core.
#[derive(Clone, Copy, Debug, PartialEq, Eq, Structural)]
pub struct Init {
    pub has_dictionary: bool,
    pub voices: usize,
    pub loaded: usize,
    pub stage: InitStage,
}

/// Behind the synthesizer: the voices in turn, and in the end at least one of
/// them has to be loaded.
pub open spec fn voice_stage(voices: usize, loaded: usize, next: int) -> InitStage {
    if next < voices {
        InitStage::Voice(next as usize)
    } else if loaded == 0 {
        InitStage::Done(InitEnd::NoVoice)
    } else {
        InitStage::Done(InitEnd::Ready)
    }
}

/// The start after the call of its stage returned that code. A voice that does
/// not load is passed over.
pub open spec fn init_after(i: Init, code: i32) -> Init {
    match i.stage {
        InitStage::Runtime => Init {
            stage: if code != VOICEVOX_RESULT_OK {
                InitStage::Done(InitEnd::RuntimeFailed(code))
            } else if !i.has_dictionary {
                InitStage::Done(InitEnd::DictionaryMissing)
            } else {
                InitStage::Dictionary
            },
            ..i
        },
        InitStage::Dictionary => Init {
            stage: if code != VOICEVOX_RESULT_OK {
                InitStage::Done(InitEnd::DictionaryFailed(code))
            } else {
                InitStage::Synthesizer
            },
            ..i
        },
        InitStage::Synthesizer => Init {
            stage: if code != VOICEVOX_RESULT_OK {
                InitStage::Done(InitEnd::SynthesizerFailed(code))
            } else {
                voice_stage(i.voices, i.loaded, 0)
            },
            ..i
        },
        InitStage::Voice(k) => {
            let loaded: usize = if code == VOICEVOX_RESULT_OK {
                (i.loaded + 1) as usize
            } else {
                i.loaded
            };
            Init { loaded, stage: voice_stage(i.voices, loaded, k + 1), ..i }
        },
        InitStage::Done(_) => i,
    }
}

/// The voices passed so far hold those that were loaded.
pub open spec fn init_wf(i: Init) -> bool {
    match i.stage {
        InitStage::Voice(k) => k < i.voices && i.loaded <= k,
        InitStage::Done(InitEnd::Ready) => 0 < i.loaded <= i.voices,
        _ => i.loaded == 0,
    }
}

impl Init {
    /// The core's library is loaded.
    pub fn new(files: &EngineFiles) -> (r: Self)
        ensures
            init_wf(r),
            r == (Init {
                has_dictionary: files.dictionary is Some,
                voices: files.voices@.len() as usize,
                loaded: 0,
                stage: InitStage::Runtime,
            }),
    {
        Init {
            has_dictionary: files.dictionary.is_some(),
            voices: files.voices.len(),
            loaded: 0,
            stage: InitStage::Runtime,
        }
    }

    fn voices_from(&self, loaded: usize, next: usize) -> (r: InitStage)
        ensures
            r == voice_stage(self.voices, loaded, next as int),
    {
        if next < self.voices {
            InitStage::Voice(next)
        } else if loaded == 0 {
            InitStage::Done(InitEnd::NoVoice)
        } else {
            InitStage::Done(InitEnd::Ready)
        }
    }

    /// The call of the stage returned that code. A path that cannot be handed
    /// over counts as a call that failed.
    pub fn step(&mut self, code: i32)
        requires
            init_wf(*old(self)),
        ensures
            *final(self) == init_after(*old(self), code),
            init_wf(*final(self)),
    {
        match self.stage {
            InitStage::Runtime => {
                self.stage = if code != VOICEVOX_RESULT_OK {
                    InitStage::Done(InitEnd::RuntimeFailed(code))
                } else if !self.has_dictionary {
                    InitStage::Done(InitEnd::DictionaryMissing)
                } else {
                    InitStage::Dictionary
                };
            },
            InitStage::Dictionary => {
                self.stage = if code != VOICEVOX_RESULT_OK {
                    InitStage::Done(InitEnd::DictionaryFailed(code))
                } else {
                    InitStage::Synthesizer
                };
            },
            InitStage::Synthesizer => {
                self.stage = if code != VOICEVOX_RESULT_OK {
                    InitStage::Done(InitEnd::SynthesizerFailed(code))
                } else {
                    self.voices_from(self.loaded, 0)
                };
            },
            InitStage::Voice(k) => {
                if code == VOICEVOX_RESULT_OK {
                    self.loaded = self.loaded + 1;
                }
                self.stage = self.voices_from(self.loaded, k + 1);
            },
            InitStage::Done(_) => {},
        }
    }
}

/// What is told of a start that failed.
pub open spec fn init_text(e: InitEnd) -> Option<Seq<char>> {
    match e {
        InitEnd::Ready => None,
        InitEnd::RuntimeFailed(code) => Some(
            call_failed_text("ONNX Runtime のロード"@, code as int),
        ),
        InitEnd::DictionaryMissing => Some(DICTIONARY_MISSING@),
        InitEnd::DictionaryFailed(code) => Some(
            call_failed_text("Open JTalk 辞書の読み込み"@, code as int),
        ),
        InitEnd::SynthesizerFailed(code) => Some(
            "Synthesizer の生成に失敗 (コード "@ + text::signed_decimal(code as int) + ")"@,
        ),
        InitEnd::NoVoice => Some(NO_VOICE_LOADED@),
    }
}

impl InitEnd {
    /// What is told of a start that failed.
    pub fn message(&self) -> (r: Option<String>)
        requires
            *self != InitEnd::RuntimeFailed(VOICEVOX_RESULT_OK),
            *self != InitEnd::DictionaryFailed(VOICEVOX_RESULT_OK),
        ensures
            text::opt_text(r) == init_text(*self),
    {
        match *self {
            InitEnd::Ready => None,
            InitEnd::RuntimeFailed(code) => match check(code, "ONNX Runtime のロード") {
                Ok(()) => None,
                Err(e) => Some(e),
            },
            InitEnd::DictionaryMissing => Some(owned(DICTIONARY_MISSING)),
            InitEnd::DictionaryFailed(code) => match check(code, "Open JTalk 辞書の読み込み") {
                Ok(()) => None,
                Err(e) => Some(e),
            },
            InitEnd::SynthesizerFailed(code) => {
                let mut out = owned("Synthesizer の生成に失敗 (コード ");
                push_text(&mut out, signed_decimal_text(code).as_str());
                push_text(&mut out, ")");
                Some(out)
            },
            InitEnd::NoVoice => Some(owned(NO_VOICE_LOADED)),
        }
    }

    /// Whether the synthesizer is deleted, and whether the dictionary is closed.
    pub fn cleanup(&self) -> (r: (bool, bool))
        ensures
            r.0 == (*self == InitEnd::NoVoice),
            r.1 == (*self == InitEnd::NoVoice || *self is SynthesizerFailed),
    {
        match *self {
            InitEnd::NoVoice => (true, true),
            InitEnd::SynthesizerFailed(_) => (false, true),
            _ => (false, false),
        }
    }
}

/// The start after the first `n` calls.
pub open spec fn init_run(i: Init, codes: Seq<i32>, n: int) -> Init
    decreases n,
{
    if n <= 0 {
        i
    } else {
        init_after(init_run(i, codes, n - 1), codes[n - 1])
    }
}

/// How many voices were loaded by the first `n` calls.
pub open spec fn voices_loaded(i: Init, codes: Seq<i32>, n: int) -> int
    decreases n,
{
    if n <= 0 {
        0
    } else {
        voices_loaded(i, codes, n - 1) + (if init_run(i, codes, n - 1).stage is Voice && codes[n - 1]
            == VOICEVOX_RESULT_OK {
            1int
        } else {
            0int
        })
    }
}

/// However the calls go, the core is ready only with at least one voice, and it
/// counts those that loaded.
pub proof fn ready_only_with_a_voice(i: Init, codes: Seq<i32>, n: int)
    requires
        init_wf(i),
        i.stage == InitStage::Runtime,
        0 <= n <= codes.len(),
    ensures
        init_wf(init_run(i, codes, n)),
        init_run(i, codes, n).loaded == voices_loaded(i, codes, n),
        init_run(i, codes, n).stage == InitStage::Done(InitEnd::Ready) ==> voices_loaded(
            i,
            codes,
            n,
        ) > 0,
        init_run(i, codes, n).stage == InitStage::Done(InitEnd::NoVoice) ==> voices_loaded(
            i,
            codes,
            n,
        ) == 0,
    decreases n,
{
    if n > 0 {
        ready_only_with_a_voice(i, codes, n - 1);
    }
}

/// How many of the codes say that a call succeeded.
pub open spec fn successes(codes: Seq<i32>) -> int {
    codes.filter(|c: i32| c == 0).len() as int
}

proof fn lemma_successes_push(codes: Seq<i32>, n: int)
    requires
        0 <= n < codes.len(),
    ensures
        successes(codes.subrange(3, n + 1)) == successes(codes.subrange(3, n)) + (if codes[n] == 0 {
            1int
        } else {
            0int
        }) || n < 3,
        n >= 3 ==> 0 <= successes(codes.subrange(3, n)) <= n - 3,
{
    reveal(Seq::filter);
    if n >= 3 {
        let s = codes.subrange(3, n + 1);
        assert(s.drop_last() =~= codes.subrange(3, n));
        assert(s.last() == codes[n]);
        lemma_few_successes(codes.subrange(3, n));
    }
}

proof fn lemma_few_successes(codes: Seq<i32>)
    ensures
        0 <= successes(codes) <= codes.len(),
    decreases codes.len(),
{
    reveal(Seq::filter);
    if codes.len() > 0 {
        lemma_few_successes(codes.drop_last());
    }
}

/// Where the runtime, the dictionary and the synthesizer come about, every voice
/// has its turn, one call for each and in their order, whether or not the others
/// load; once all had theirs, the core is ready where at least one of their calls
/// succeeded, with as many voices as succeeded.
pub proof fn every_voice_has_its_turn(i: Init, codes: Seq<i32>, n: int)
    requires
        i.stage == InitStage::Runtime,
        i.loaded == 0,
        i.has_dictionary,
        3 <= n <= codes.len(),
        codes[0] == 0 && codes[1] == 0 && codes[2] == 0,
    ensures
        n < 3 + i.voices ==> init_run(i, codes, n).stage == InitStage::Voice((n - 3) as usize),
        n <= 3 + i.voices ==> init_run(i, codes, n).loaded == successes(codes.subrange(3, n)),
        n >= 3 + i.voices ==> init_run(i, codes, n).loaded == successes(
            codes.subrange(3, 3 + i.voices),
        ),
        n >= 3 + i.voices && successes(codes.subrange(3, 3 + i.voices)) > 0 ==> init_run(
            i,
            codes,
            n,
        ).stage == InitStage::Done(InitEnd::Ready),
        n >= 3 + i.voices && successes(codes.subrange(3, 3 + i.voices)) == 0 ==> init_run(
            i,
            codes,
            n,
        ).stage == InitStage::Done(InitEnd::NoVoice),
        init_run(i, codes, n).voices == i.voices,
    decreases n,
{
    reveal_with_fuel(init_run, 4);
    if n == 3 {
        assert(codes.subrange(3, 3) =~= Seq::<i32>::empty());
        lemma_few_successes(Seq::empty());
    } else {
        every_voice_has_its_turn(i, codes, n - 1);
        lemma_successes_push(codes, n - 1);
    }
}

/// Before the voices, the runtime comes first, then the dictionary, then the
/// synthesizer; the first that fails ends the start with its own code, and nothing
/// comes behind it.
pub proof fn the_first_failure_ends_the_start(i: Init, codes: Seq<i32>, n: int)
    requires
        i.stage == InitStage::Runtime,
        0 <= n <= codes.len(),
    ensures
        n == 0 ==> init_run(i, codes, n).stage == InitStage::Runtime,
        n >= 1 && codes[0] != 0 ==> init_run(i, codes, n).stage == InitStage::Done(
            InitEnd::RuntimeFailed(codes[0]),
        ),
        n >= 1 && codes[0] == 0 && !i.has_dictionary ==> init_run(i, codes, n).stage
            == InitStage::Done(InitEnd::DictionaryMissing),
        n == 1 && codes[0] == 0 && i.has_dictionary ==> init_run(i, codes, n).stage
            == InitStage::Dictionary,
        n >= 2 && codes[0] == 0 && i.has_dictionary && codes[1] != 0 ==> init_run(i, codes, n).stage
            == InitStage::Done(InitEnd::DictionaryFailed(codes[1])),
        n == 2 && codes[0] == 0 && i.has_dictionary && codes[1] == 0 ==> init_run(i, codes, n).stage
            == InitStage::Synthesizer,
        n >= 3 && codes[0] == 0 && i.has_dictionary && codes[1] == 0 && codes[2] != 0 ==> init_run(
            i,
            codes,
            n,
        ).stage == InitStage::Done(InitEnd::SynthesizerFailed(codes[2])),
        n <= 2 ==> init_run(i, codes, n).has_dictionary == i.has_dictionary,
    decreases n,
{
    reveal_with_fuel(init_run, 2);
    if n > 0 {
        the_first_failure_ends_the_start(i, codes, n - 1);
    }
}

/// The way to an entry below a directory, by the position at each level, leads
/// through directories to something that is there.
pub open spec fn is_way(n: Seq<Node>, way: Seq<int>) -> bool
    decreases way.len(),
{
    way.len() > 0 && 0 <= way[0] < n.len() && (way.len() == 1 || (n[way[0]].is_dir && is_way(
        n[way[0]].entries@,
        way.skip(1),
    )))
}

/// The entry at the end of a way.
pub open spec fn end_of(n: Seq<Node>, way: Seq<int>) -> Seen
    decreases way.len(),
{
    if way.len() <= 1 {
        n[way[0]]@
    } else {
        end_of(n[way[0]].entries@, way.skip(1))
    }
}

proof fn lemma_met_at(n: Seq<Node>, i: int, depth: int, k: int, x: Seen)
    requires
        0 <= i <= k < n.len(),
        0 <= depth <= MAX_VISIT_DEPTH,
        n[k]@ == x || below(n[k], depth).contains(x),
    ensures
        met(n, i, depth).contains(x),
    decreases k - i,
{
    let all = met(n, i, depth);
    let head = seq![n[i]@] + below(n[i], depth);
    let rest = met(n, i + 1, depth);
    assert(all == head + rest);
    if i < k {
        lemma_met_at(n, i + 1, depth, k, x);
        let j = choose|j: int| 0 <= j < rest.len() && rest[j] == x;
        assert(all[head.len() + j] == x);
    } else if n[k]@ == x {
        assert(all[0] == x);
    } else {
        let b = below(n[k], depth);
        let j = choose|j: int| 0 <= j < b.len() && b[j] == x;
        assert(head[1 + j] == x);
        assert(all[1 + j] == x);
    }
}

proof fn lemma_way_is_met(n: Seq<Node>, way: Seq<int>, depth: int)
    requires
        is_way(n, way),
        0 <= depth,
        depth + way.len() <= MAX_VISIT_DEPTH + 1,
    ensures
        met(n, 0, depth).contains(end_of(n, way)),
    decreases way.len(),
{
    if way.len() > 1 {
        lemma_way_is_met(n[way[0]].entries@, way.skip(1), depth + 1);
    }
    lemma_met_at(n, 0, depth, way[0], end_of(n, way));
}

proof fn lemma_met_has_way(n: Seq<Node>, i: int, depth: int, x: Seen) -> (way: Seq<int>)
    requires
        0 <= i <= n.len(),
        0 <= depth <= MAX_VISIT_DEPTH,
        met(n, i, depth).contains(x),
    ensures
        is_way(n, way),
        end_of(n, way) == x,
        depth + way.len() <= MAX_VISIT_DEPTH + 1,
    decreases MAX_VISIT_DEPTH + 1 - depth, n.len() - i,
{
    let all = met(n, i, depth);
    let j = choose|j: int| 0 <= j < all.len() && all[j] == x;
    let b = below(n[i], depth);
    let rest = met(n, i + 1, depth);
    if j == 0 {
        seq![i]
    } else if j < 1 + b.len() {
        assert(all[j] == b[j - 1]);
        assert(b.contains(x));
        let w = lemma_met_has_way(n[i].entries@, 0, depth + 1, x);
        let way = seq![i] + w;
        assert(way.skip(1) =~= w);
        way
    } else {
        assert(all[j] == rest[j - 1 - b.len()]);
        assert(rest.contains(x));
        lemma_met_has_way(n, i + 1, depth, x)
    }
}

proof fn lemma_found(s: Seq<Seen>, a: Asset, n: int, p: Seq<char>)
    requires
        0 <= n <= s.len(),
    ensures
        found(s, a, n).contains(p) <==> exists|k: int|
            0 <= k < n && is_asset(#[trigger] s[k], a) && s[k].path == p,
    decreases n,
{
    if n > 0 {
        lemma_found(s, a, n - 1, p);
        let f = found(s, a, n - 1);
        let g = found(s, a, n);
        if is_asset(s[n - 1], a) {
            assert(g == f.push(s[n - 1].path));
            assert(g[f.len() as int] == s[n - 1].path);
            if f.contains(p) {
                let j = choose|j: int| 0 <= j < f.len() && f[j] == p;
                assert(g[j] == p);
            }
            if g.contains(p) {
                let j = choose|j: int| 0 <= j < g.len() && g[j] == p;
                if j < f.len() {
                    assert(f[j] == p);
                }
            }
        }
    }
}

/// Everything that is looked for is found, wherever it lies within eight
/// directories below the first, and nothing else is.
pub proof fn found_iff_within_reach(nodes: Seq<Node>, a: Asset, p: Seq<char>)
    ensures
        all_found(nodes, a).contains(p) <==> exists|way: Seq<int>|
            way.len() <= 9 && #[trigger] is_way(nodes, way) && is_asset(end_of(nodes, way), a)
                && end_of(nodes, way).path == p,
{
    let s = met(nodes, 0, 0);
    lemma_found(s, a, s.len() as int, p);
    if all_found(nodes, a).contains(p) {
        let k = choose|k: int| 0 <= k < s.len() && is_asset(#[trigger] s[k], a) && s[k].path == p;
        assert(s.contains(s[k]));
        let way = lemma_met_has_way(nodes, 0, 0, s[k]);
        assert(is_way(nodes, way));
    }
    if exists|way: Seq<int>|
        way.len() <= 9 && #[trigger] is_way(nodes, way) && is_asset(end_of(nodes, way), a)
            && end_of(nodes, way).path == p {
        let way = choose|way: Seq<int>|
            way.len() <= 9 && #[trigger] is_way(nodes, way) && is_asset(end_of(nodes, way), a)
                && end_of(nodes, way).path == p;
        lemma_way_is_met(nodes, way, 0);
        let x = end_of(nodes, way);
        let k = choose|k: int| 0 <= k < s.len() && s[k] == x;
        assert(is_asset(s[k], a));
    }
}

/// In whatever case the letters of a name are written, it names the same things.
pub proof fn case_does_not_matter(a: Seq<char>, b: Seq<char>, what: Asset)
    requires
        a.len() == b.len(),
        forall|k: int|
            0 <= k < a.len() ==> (#[trigger] a[k] == b[k] || ('A' <= a[k] <= 'Z' && b[k] as int
                == a[k] as int + 32)),
    ensures
        names_asset(a, what) == names_asset(b, what),
{
    assert(reader::in_ascii_lower(a) =~= reader::in_ascii_lower(b));
}

/// What is looked for is a file of the right name, or for the dictionary a directory:
/// the core by its full name, the runtime by a library that names it, a voice by its
/// extension, the dictionary by how its name begins.
pub proof fn what_is_looked_for(s: Seen, a: Asset)
    requires
        is_asset(s, a),
    ensures
        s.name is Some,
        a == Asset::Dictionary ==> s.is_dir && "open_jtalk_dic"@.is_prefix_of(
            reader::in_ascii_lower(s.name->0),
        ),
        a == Asset::Core ==> s.is_file && reader::in_ascii_lower(s.name->0)
            == "voicevox_core.dll"@,
        a == Asset::Runtime ==> s.is_file && text::has_text(
            reader::in_ascii_lower(s.name->0),
            "onnxruntime"@,
        ) && ".dll"@.is_suffix_of(reader::in_ascii_lower(s.name->0)),
        a == Asset::Voice ==> s.is_file && ".vvm"@.is_suffix_of(reader::in_ascii_lower(s.name->0)),
{
}

/// Every file whose name ends like that of a voice, in whatever case, is a voice.
pub proof fn every_voice_is_one(s: Seen, front: Seq<char>)
    requires
        s.is_file,
        s.name is Some,
        reader::in_ascii_lower(s.name->0) == front + ".vvm"@,
    ensures
        is_asset(s, Asset::Voice),
{
    let n = reader::in_ascii_lower(s.name->0);
    assert(n.subrange(n.len() - ".vvm"@.len(), n.len() as int) =~= ".vvm"@);
}

} // verus!
