//! What this build asks to be installed, and the record of what was.
//!
//! There are three kinds of things: sources pinned by their URL, packages named
//! with the versions that will do, and models named with a revision. The record
//! keeps what was asked for when each was installed, so that a later build can
//! tell what has to be installed anew.
use vstd::prelude::*;

use crate::names::{merge_named, NameMap};
use crate::names;
use crate::paths::AssetPath;
use crate::paths;
use crate::text::{
    char_at, chars_of, has_name, owned, push_text, same, slice_text, starts_with, trim,
};
use crate::text;

verus! {

/// The Python that is installed.
pub const PYTHON_VERSION: &'static str = "3.11.9";

/// Where that Python comes from.
pub const PYTHON_URL: &'static str =
    "https://www.python.org/ftp/python/3.11.9/python-3.11.9-embed-amd64.zip";

/// Where the script that installs pip comes from.
pub const GET_PIP_URL: &'static str = "https://bootstrap.pypa.io/get-pip.py";

/// The index that holds PyTorch with CUDA.
pub const TORCH_CUDA_INDEX_URL: &'static str = "https://download.pytorch.org/whl/cu128";

pub const SILENTCIPHER_ZIPBALL: &'static str =
    "https://github.com/SesameAILabs/silentcipher/archive/d46d7d0893a583d8968ab3a6626e2289faec9152.zip";

pub const DACVAE_ZIPBALL: &'static str =
    "https://github.com/facebookresearch/dacvae/archive/414c20785fc3a28373073ea8ef7a1316eeeaca6e.zip";

pub const IRODORI_TTS_ZIPBALL: &'static str =
    "https://github.com/Aratako/Irodori-TTS/archive/8224dafb46d0aba89209a8f905f1cb7e3299d9c1.zip";

/// The file that holds the record.
pub const STAMP_FILE: &'static str = "installed.json";

/// The form of the record. One of another form counts as none.
pub const STAMP_SCHEMA: u32 = 1;

/// What every installation needs besides the engine itself.
pub open spec fn common_specs() -> Seq<Seq<char>> {
    seq![
        "fastapi==0.115.6"@,
        "uvicorn[standard]==0.32.1"@,
        "huggingface_hub==0.27.0"@,
        "numpy<2"@,
        "soundfile==0.12.1"@,
    ]
}

/// What every installation needs besides the engine itself.
pub fn common_requirements() -> (r: Vec<&'static str>)
    ensures
        text::str_texts(r@) == common_specs(),
{
    let r = vec![
        "fastapi==0.115.6",
        "uvicorn[standard]==0.32.1",
        "huggingface_hub==0.27.0",
        "numpy<2",
        "soundfile==0.12.1",
    ];
    assert(text::str_texts(r@) =~= common_specs());
    r
}

/// What is installed from the CUDA index of PyTorch.
pub open spec fn torch_specs() -> Seq<Seq<char>> {
    seq![
        "torch>=2.10.0,<2.11.0"@,
        "torchaudio>=2.10.0,<2.11.0"@,
    ]
}

/// What is installed from the CUDA index of PyTorch.
pub fn torch_packages() -> (r: Vec<&'static str>)
    ensures
        text::str_texts(r@) == torch_specs(),
{
    let r = vec![
        "torch>=2.10.0,<2.11.0",
        "torchaudio>=2.10.0,<2.11.0",
    ];
    assert(text::str_texts(r@) =~= torch_specs());
    r
}

/// What the engine needs on top of that.
pub open spec fn extra_specs() -> Seq<Seq<char>> {
    seq![
        "torchcodec>=0.10.0,<0.11.0"@,
        "transformers<5"@,
        "accelerate>=1.0.0"@,
        "peft>=0.18.0"@,
        "safetensors>=0.7.0"@,
        "datasets>=3.0.0"@,
        "librosa"@,
        "numba>=0.57.0"@,
        "llvmlite>=0.40.0"@,
        "sentencepiece>=0.1.99,<0.2"@,
        "pyyaml>=6.0"@,
        "tqdm>=4.67.3"@,
        "einops"@,
        "descript-audiotools>=0.7.2"@,
    ]
}

/// What the engine needs on top of that.
pub fn irodori_extra_requirements() -> (r: Vec<&'static str>)
    ensures
        text::str_texts(r@) == extra_specs(),
{
    let r = vec![
        "torchcodec>=0.10.0,<0.11.0",
        "transformers<5",
        "accelerate>=1.0.0",
        "peft>=0.18.0",
        "safetensors>=0.7.0",
        "datasets>=3.0.0",
        "librosa",
        "numba>=0.57.0",
        "llvmlite>=0.40.0",
        "sentencepiece>=0.1.99,<0.2",
        "pyyaml>=6.0",
        "tqdm>=4.67.3",
        "einops",
        "descript-audiotools>=0.7.2",
    ];
    assert(text::str_texts(r@) =~= extra_specs());
    r
}

/// What was installed by the builds that did not record requirements. This does
/// not follow the current requirements.
pub open spec fn baseline_specs() -> Seq<Seq<char>> {
    seq![
        "fastapi==0.115.6"@,
        "uvicorn[standard]==0.32.1"@,
        "huggingface_hub==0.27.0"@,
        "numpy<2"@,
        "soundfile==0.12.1"@,
        "torch>=2.10.0,<2.11.0"@,
        "torchaudio>=2.10.0,<2.11.0"@,
        "torchcodec>=0.10.0,<0.11.0"@,
        "transformers<5"@,
        "accelerate>=1.0.0"@,
        "peft>=0.18.0"@,
        "safetensors>=0.7.0"@,
        "datasets>=3.0.0"@,
        "librosa"@,
        "numba>=0.57.0"@,
        "llvmlite>=0.40.0"@,
        "sentencepiece>=0.1.99,<0.2"@,
        "pyyaml>=6.0"@,
        "tqdm>=4.67.3"@,
        "einops"@,
        "descript-audiotools>=0.7.2"@,
    ]
}

/// What was installed by the builds that did not record requirements. This does
/// not follow the current requirements.
pub fn v054_baseline_specs() -> (r: Vec<&'static str>)
    ensures
        text::str_texts(r@) == baseline_specs(),
{
    let r = vec![
        "fastapi==0.115.6",
        "uvicorn[standard]==0.32.1",
        "huggingface_hub==0.27.0",
        "numpy<2",
        "soundfile==0.12.1",
        "torch>=2.10.0,<2.11.0",
        "torchaudio>=2.10.0,<2.11.0",
        "torchcodec>=0.10.0,<0.11.0",
        "transformers<5",
        "accelerate>=1.0.0",
        "peft>=0.18.0",
        "safetensors>=0.7.0",
        "datasets>=3.0.0",
        "librosa",
        "numba>=0.57.0",
        "llvmlite>=0.40.0",
        "sentencepiece>=0.1.99,<0.2",
        "pyyaml>=6.0",
        "tqdm>=4.67.3",
        "einops",
        "descript-audiotools>=0.7.2",
    ];
    assert(text::str_texts(r@) =~= baseline_specs());
    r
}

/// Everything that is named with the versions that will do.
pub open spec fn all_specs() -> Seq<Seq<char>> {
    common_specs() + torch_specs() + extra_specs()
}

/// Everything that is named with the versions that will do.
pub fn all_requirements() -> (r: Vec<&'static str>)
    ensures
        text::str_texts(r@) == all_specs(),
{
    let mut r = common_requirements();
    let mut t = torch_packages();
    let mut e = irodori_extra_requirements();
    let ghost a = r@;
    let ghost b = t@;
    let ghost c = e@;
    r.append(&mut t);
    r.append(&mut e);
    assert(r@ =~= a + b + c);
    assert(text::str_texts(r@) =~= text::str_texts(a) + text::str_texts(b) + text::str_texts(c));
    r
}

/// A character that ends the name in a requirement.
pub open spec fn ends_name(c: char) -> bool {
    c == '[' || c == '=' || c == '<' || c == '>' || c == '!' || c == '~' || c == ';' || c == ' '
}

/// The first position at or after `i` of a character that ends the name, or the end.
pub open spec fn name_end(s: Seq<char>, i: int) -> int
    decreases s.len() - i,
    when 0 <= i <= s.len()
{
    if i == s.len() || ends_name(s[i]) {
        i
    } else {
        name_end(s, i + 1)
    }
}

/// The name in a requirement.
pub open spec fn req_name(s: Seq<char>) -> Seq<char> {
    text::trimmed(s.take(name_end(s, 0)))
}

/// The name in a requirement: what stands before the versions and extras.
pub fn requirement_name(spec: &str) -> (r: String)
    ensures
        r@ == req_name(spec@),
{
    let cs = chars_of(spec);
    let mut i: usize = 0;
    loop
        invariant_except_break
            name_end(spec@, 0) == name_end(spec@, i as int),
        invariant
            i <= cs@.len(),
            cs@ == spec@,
        ensures
            i as int == name_end(spec@, 0),
        decreases cs@.len() - i,
    {
        if i >= cs.len() {
            break;
        }
        let c = char_at(&cs, i);
        if c == '[' || c == '=' || c == '<' || c == '>' || c == '!' || c == '~' || c == ';' || c
            == ' ' {
            break;
        }
        i += 1;
    }
    let head = slice_text(&cs, 0, i);
    assert(head@ =~= spec@.take(i as int));
    trim(head.as_str())
}

/// The first `n` requirements by their names.
pub open spec fn specs_table(s: Seq<Seq<char>>, n: int) -> Map<Seq<char>, Seq<char>>
    decreases n,
{
    if n <= 0 {
        Map::empty()
    } else {
        specs_table(s, n - 1).insert(req_name(s[n - 1]), s[n - 1])
    }
}

/// Requirements by their names.
fn table_by_name(specs: &Vec<&'static str>) -> (r: NameMap)
    ensures
        r.wf(),
        r@ == specs_table(text::str_texts(specs@), specs@.len() as int),
{
    let mut out = NameMap::new();
    let mut i: usize = 0;
    while i < specs.len()
        invariant
            i <= specs@.len(),
            out.wf(),
            out@ == specs_table(text::str_texts(specs@), i as int),
        decreases specs@.len() - i,
    {
        assert(text::str_texts(specs@)[i as int] == specs@[i as int]@);
        out.insert(requirement_name(specs[i]).as_str(), specs[i]);
        i += 1;
    }
    out
}

/// The sources that this build pins, by name.
pub open spec fn pins_now() -> Map<Seq<char>, Seq<char>> {
    Map::<Seq<char>, Seq<char>>::empty().insert("python"@, PYTHON_URL@).insert(
        "silentcipher"@,
        SILENTCIPHER_ZIPBALL@,
    ).insert("dacvae"@, DACVAE_ZIPBALL@).insert("irodori_tts"@, IRODORI_TTS_ZIPBALL@)
}

/// The sources that this build pins, by name.
pub fn current_pins() -> (r: NameMap)
    ensures
        r.wf(),
        r@ == pins_now(),
{
    let mut r = NameMap::new();
    r.insert("python", PYTHON_URL);
    r.insert("silentcipher", SILENTCIPHER_ZIPBALL);
    r.insert("dacvae", DACVAE_ZIPBALL);
    r.insert("irodori_tts", IRODORI_TTS_ZIPBALL);
    r
}

/// The packages that this build requires, by name.
pub open spec fn requirements_now() -> Map<Seq<char>, Seq<char>> {
    specs_table(all_specs(), all_specs().len() as int)
}

/// The packages that this build requires, by name.
pub fn current_requirements() -> (r: NameMap)
    ensures
        r.wf(),
        r@ == requirements_now(),
{
    let specs = all_requirements();
    assert(specs@.len() == text::str_texts(specs@).len());
    table_by_name(&specs)
}

pub const MODEL_SYNTH: &'static str = "Aratako/Irodori-TTS-500M-v3@main";

pub const MODEL_VOICE_DESIGN: &'static str = "Aratako/Irodori-TTS-500M-v2-VoiceDesign@main";

pub const MODEL_CODEC: &'static str = "Aratako/Semantic-DACVAE-Japanese-32dim@main";

/// The models that this build uses, by name: each with its revision.
pub open spec fn models_now() -> Map<Seq<char>, Seq<char>> {
    Map::<Seq<char>, Seq<char>>::empty().insert("model_synth"@, MODEL_SYNTH@).insert(
        "model_voice_design"@,
        MODEL_VOICE_DESIGN@,
    ).insert("model_codec"@, MODEL_CODEC@)
}

/// The models that this build uses, by name: each with its revision.
pub fn current_models() -> (r: NameMap)
    ensures
        r.wf(),
        r@ == models_now(),
{
    let mut r = NameMap::new();
    r.insert("model_synth", MODEL_SYNTH);
    r.insert("model_voice_design", MODEL_VOICE_DESIGN);
    r.insert("model_codec", MODEL_CODEC);
    r
}

pub const BASELINE_MODEL_SYNTH: &'static str = "Aratako/Irodori-TTS-500M-v3@main";

pub const BASELINE_MODEL_VOICE_DESIGN: &'static str =
    "Aratako/Irodori-TTS-500M-v2-VoiceDesign@main";

pub const BASELINE_MODEL_CODEC: &'static str = "Aratako/Semantic-DACVAE-Japanese-32dim@main";

/// The packages of an environment whose record says nothing of packages.
pub open spec fn baseline_requirements() -> Map<Seq<char>, Seq<char>> {
    specs_table(baseline_specs(), baseline_specs().len() as int)
}

/// The packages of an environment whose record says nothing of packages.
pub fn v054_baseline_requirements() -> (r: NameMap)
    ensures
        r.wf(),
        r@ == baseline_requirements(),
{
    let specs = v054_baseline_specs();
    assert(specs@.len() == text::str_texts(specs@).len());
    table_by_name(&specs)
}

/// The models of an environment whose record says nothing of models.
pub open spec fn baseline_models() -> Map<Seq<char>, Seq<char>> {
    Map::<Seq<char>, Seq<char>>::empty().insert("model_synth"@, BASELINE_MODEL_SYNTH@).insert(
        "model_voice_design"@,
        BASELINE_MODEL_VOICE_DESIGN@,
    ).insert("model_codec"@, BASELINE_MODEL_CODEC@)
}

/// The models of an environment whose record says nothing of models.
pub fn v054_baseline_models() -> (r: NameMap)
    ensures
        r.wf(),
        r@ == baseline_models(),
{
    let mut r = NameMap::new();
    r.insert("model_synth", BASELINE_MODEL_SYNTH);
    r.insert("model_voice_design", BASELINE_MODEL_VOICE_DESIGN);
    r.insert("model_codec", BASELINE_MODEL_CODEC);
    r
}

/// How a pinned source is installed anew: the package, and where it comes from.
pub open spec fn pin_of(name: Seq<char>) -> Option<(Seq<char>, Seq<char>)> {
    if name == "silentcipher"@ {
        Some(("silentcipher"@, SILENTCIPHER_ZIPBALL@))
    } else if name == "dacvae"@ {
        Some(("dacvae"@, DACVAE_ZIPBALL@))
    } else if name == "irodori_tts"@ {
        Some(("irodori_tts"@, IRODORI_TTS_ZIPBALL@))
    } else {
        None
    }
}

/// How a pinned source is installed anew: the package, and where it comes from.
/// Python is not among them: an interpreter cannot be replaced while it runs.
pub fn updatable_pin(name: &str) -> (r: Option<(&'static str, &'static str)>)
    ensures
        (match r {
            Some(p) => Some((p.0@, p.1@)),
            None => None,
        }) == pin_of(name@),
{
    if same(name, "silentcipher") {
        Some(("silentcipher", SILENTCIPHER_ZIPBALL))
    } else if same(name, "dacvae") {
        Some(("dacvae", DACVAE_ZIPBALL))
    } else if same(name, "irodori_tts") {
        Some(("irodori_tts", IRODORI_TTS_ZIPBALL))
    } else {
        None
    }
}

/// The package comes from the CUDA index of PyTorch.
pub open spec fn is_torch(name: Seq<char>) -> bool {
    exists|i: int| 0 <= i < torch_specs().len() && req_name(#[trigger] torch_specs()[i]) == name
}

/// Whether the package has to come from the CUDA index of PyTorch; from the
/// common index it would be the build without CUDA.
pub fn needs_torch_index(name: &str) -> (r: bool)
    ensures
        r == is_torch(name@),
{
    let specs = torch_packages();
    let mut i: usize = 0;
    while i < specs.len()
        invariant
            i <= specs@.len(),
            text::str_texts(specs@) == torch_specs(),
            forall|j: int| 0 <= j < i ==> req_name(#[trigger] torch_specs()[j]) != name@,
        decreases specs@.len() - i,
    {
        assert(text::str_texts(specs@)[i as int] == specs@[i as int]@);
        if same(requirement_name(specs[i]).as_str(), name) {
            assert(req_name(torch_specs()[i as int]) == name@);
            return true;
        }
        i += 1;
    }
    false
}

/// The names with those of `more` that are not among them yet, from the `i`-th on.
pub open spec fn with_new(names: Seq<Seq<char>>, more: Seq<Seq<char>>, i: int) -> Seq<Seq<char>>
    decreases more.len() - i,
    when 0 <= i <= more.len()
{
    if i == more.len() {
        names
    } else if names.contains(more[i]) {
        with_new(names, more, i + 1)
    } else {
        with_new(names.push(more[i]), more, i + 1)
    }
}

/// The distributions whose installed version is recorded: every package that
/// is required by name, and the three that come from an archive.
pub open spec fn recorded_names() -> Seq<Seq<char>> {
    with_new(
        Seq::empty(),
        Seq::new(all_specs().len(), |i: int| req_name(all_specs()[i])) + seq![
            "silentcipher"@,
            "dacvae"@,
            "irodori-tts"@,
        ],
        0,
    )
}

/// The distributions whose installed version is recorded, each once.
pub fn recorded_distributions() -> (r: Vec<String>)
    ensures
        text::texts(r@) == recorded_names(),
{
    let specs = all_requirements();
    let mut all: Vec<String> = Vec::new();
    let mut i: usize = 0;
    let ghost n = Seq::new(all_specs().len(), |i: int| req_name(all_specs()[i]));
    while i < specs.len()
        invariant
            i <= specs@.len(),
            text::str_texts(specs@) == all_specs(),
            n == Seq::new(all_specs().len(), |i: int| req_name(all_specs()[i])),
            text::texts(all@) == n.take(i as int),
        decreases specs@.len() - i,
    {
        let ghost before = text::texts(all@);
        assert(text::str_texts(specs@)[i as int] == specs@[i as int]@);
        let name = requirement_name(specs[i]);
        all.push(name);
        assert(text::texts(all@) =~= before.push(name@));
        assert(n[i as int] == name@);
        assert(n.take(i + 1) =~= n.take(i as int).push(n[i as int]));
        i += 1;
    }
    assert(n.take(i as int) =~= n);
    all.push(owned("silentcipher"));
    all.push(owned("dacvae"));
    all.push(owned("irodori-tts"));
    let ghost m = n + seq!["silentcipher"@, "dacvae"@, "irodori-tts"@];
    assert(text::texts(all@) =~= m);
    let mut out: Vec<String> = Vec::new();
    let mut k: usize = 0;
    assert(text::texts(out@) =~= Seq::<Seq<char>>::empty());
    while k < all.len()
        invariant
            k <= all@.len(),
            text::texts(all@) == m,
            with_new(text::texts(out@), m, k as int) == with_new(Seq::empty(), m, 0),
        decreases all@.len() - k,
    {
        let ghost before = text::texts(out@);
        assert(text::texts(all@)[k as int] == all@[k as int]@);
        if !has_name(&out, all[k].as_str()) {
            out.push(owned(all[k].as_str()));
            assert(text::texts(out@) =~= before.push(m[k as int]));
        }
        k += 1;
    }
    out
}

/// The position of the last at sign before `i`, or -1.
pub open spec fn last_at(s: Seq<char>, i: int) -> int
    decreases i,
{
    if i <= 0 {
        -1
    } else if s[i - 1] == '@' {
        i - 1
    } else {
        last_at(s, i - 1)
    }
}

/// A model and its revision. A value that does not name both is a model whose
/// revision is `main`.
pub open spec fn model_parts(v: Seq<char>) -> (Seq<char>, Seq<char>) {
    let i = last_at(v, v.len() as int);
    if 0 < i < v.len() - 1 {
        (v.take(i), v.skip(i + 1))
    } else {
        (v, "main"@)
    }
}

/// Splits a model from its revision.
pub fn split_model(value: &str) -> (r: (String, String))
    ensures
        (r.0@, r.1@) == model_parts(value@),
{
    let cs = chars_of(value);
    let mut i: usize = cs.len();
    while i > 0 && cs[i - 1] != '@'
        invariant
            i <= cs@.len(),
            cs@ == value@,
            last_at(value@, cs@.len() as int) == last_at(value@, i as int),
        decreases i,
    {
        i -= 1;
    }
    if i > 1 && i < cs.len() {
        let repo = slice_text(&cs, 0, i - 1);
        let rev = slice_text(&cs, i, cs.len());
        assert(repo@ =~= value@.take(i - 1));
        assert(rev@ =~= value@.skip(i as int));
        return (repo, rev);
    }
    (owned(value), owned("main"))
}

/// The option that names a model to the sidecar.
pub open spec fn model_flag(name: Seq<char>) -> Option<Seq<char>> {
    if name == "model_synth"@ {
        Some("--model-synth"@)
    } else if name == "model_voice_design"@ {
        Some("--model-voice-design"@)
    } else if name == "model_codec"@ {
        Some("--model-codec"@)
    } else {
        None
    }
}

/// The arguments for one model.
pub open spec fn one_model_args(name: Seq<char>, value: Seq<char>) -> Seq<Seq<char>> {
    match model_flag(name) {
        None => Seq::empty(),
        Some(flag) => {
            let (repo, rev) = model_parts(value);
            seq![flag, repo, flag + "-revision"@, rev]
        },
    }
}

/// The arguments for the models from the `i`-th name on.
pub open spec fn model_args(
    n: Seq<Seq<char>>,
    m: Map<Seq<char>, Seq<char>>,
    i: int,
) -> Seq<Seq<char>>
    decreases n.len() - i,
    when 0 <= i <= n.len()
{
    if i == n.len() {
        Seq::empty()
    } else {
        one_model_args(n[i], m[n[i]]) + model_args(n, m, i + 1)
    }
}

/// The option that names a model to the sidecar.
fn flag_of(name: &str) -> (r: Option<&'static str>)
    ensures
        (match r {
            Some(f) => Some(f@),
            None => None,
        }) == model_flag(name@),
{
    if same(name, "model_synth") {
        Some("--model-synth")
    } else if same(name, "model_voice_design") {
        Some("--model-voice-design")
    } else if same(name, "model_codec") {
        Some("--model-codec")
    } else {
        None
    }
}

/// The arguments that tell the sidecar which models to use.
pub fn model_args_from(models: &NameMap) -> (r: Vec<String>)
    requires
        models.wf(),
    ensures
        text::texts(r@) == model_args(names::sorted_names(models@), models@, 0),
{
    let list = models.names();
    let ghost n = names::sorted_names(models@);
    let mut out: Vec<String> = Vec::new();
    let mut i: usize = 0;
    assert(text::texts(out@) + model_args(n, models@, 0) =~= model_args(n, models@, 0));
    while i < list.len()
        invariant
            i <= list@.len(),
            models.wf(),
            n == text::texts(list@),
            forall|k: Seq<char>| n.contains(k) <==> models@.contains_key(k),
            text::texts(out@) + model_args(n, models@, i as int) == model_args(n, models@, 0),
        decreases list@.len() - i,
    {
        let ghost prior = text::texts(out@);
        let ghost rest = model_args(n, models@, i + 1);
        assert(n[i as int] == list@[i as int]@);
        assert(n.contains(n[i as int]));
        match (flag_of(list[i].as_str()), models.get(list[i].as_str())) {
            (Some(flag), Some(value)) => {
                let (repo, rev) = split_model(value.as_str());
                let mut revision = owned(flag);
                push_text(&mut revision, "-revision");
                out.push(owned(flag));
                out.push(repo);
                out.push(revision);
                out.push(rev);
                assert(text::texts(out@) =~= prior + one_model_args(n[i as int], value@));
            },
            _ => {
                assert(text::texts(out@) =~= prior + one_model_args(
                    n[i as int],
                    models@[n[i as int]],
                ));
            },
        }
        assert(text::texts(out@) + rest =~= prior + (one_model_args(
            n[i as int],
            models@[n[i as int]],
        ) + rest));
        i += 1;
    }
    assert(text::texts(out@) + Seq::<Seq<char>>::empty() =~= text::texts(out@));
    out
}

/// The arguments that fetch the models that this build uses.
pub fn model_args_for_fetch() -> (r: Vec<String>)
    ensures
        text::texts(r@) == model_args(names::sorted_names(models_now()), models_now(), 0),
{
    model_args_from(&current_models())
}

/// The record of what was installed.
#[derive(Debug, PartialEq, Eq)]
pub struct InstalledStamp {
    pub schema: u32,
    /// When it was installed, in seconds since the epoch.
    pub installed_at: i64,
    /// The pinned sources that were asked for.
    pub pins: NameMap,
    /// The versions that were found installed.
    pub resolved: NameMap,
    /// The packages that were asked for.
    pub requirements: NameMap,
    /// The models that were asked for.
    pub models: NameMap,
}

/// What an `InstalledStamp` says.
pub struct Stamp {
    pub schema: u32,
    pub installed_at: i64,
    pub pins: Map<Seq<char>, Seq<char>>,
    pub resolved: Map<Seq<char>, Seq<char>>,
    pub requirements: Map<Seq<char>, Seq<char>>,
    pub models: Map<Seq<char>, Seq<char>>,
}

impl View for InstalledStamp {
    type V = Stamp;

    open spec fn view(&self) -> Stamp {
        Stamp {
            schema: self.schema,
            installed_at: self.installed_at,
            pins: self.pins@,
            resolved: self.resolved@,
            requirements: self.requirements@,
            models: self.models@,
        }
    }
}

impl InstalledStamp {
    /// Each table is in order.
    pub open spec fn wf(self) -> bool {
        self.pins.wf() && self.resolved.wf() && self.requirements.wf() && self.models.wf()
    }

    /// A copy.
    pub fn copy(&self) -> (r: Self)
        requires
            self.wf(),
        ensures
            r.wf(),
            r@ == self@,
    {
        InstalledStamp {
            schema: self.schema,
            installed_at: self.installed_at,
            pins: self.pins.copy(),
            resolved: self.resolved.copy(),
            requirements: self.requirements.copy(),
            models: self.models.copy(),
        }
    }
}

/// What an optional record says.
pub open spec fn opt_stamp(o: Option<InstalledStamp>) -> Option<Stamp> {
    match o {
        Some(s) => Some(s@),
        None => None,
    }
}

/// An optional record is in order.
pub open spec fn opt_stamp_wf(o: Option<InstalledStamp>) -> bool {
    o matches Some(s) ==> s.wf()
}

/// The record that was read, unless it is of another form: that counts as none.
pub fn read_stamp(parsed: Option<InstalledStamp>) -> (r: Option<InstalledStamp>)
    ensures
        r == (match parsed {
            Some(s) => if s.schema == STAMP_SCHEMA {
                parsed
            } else {
                None
            },
            None => None,
        }),
{
    match parsed {
        Some(s) => {
            if s.schema == STAMP_SCHEMA {
                Some(s)
            } else {
                None
            }
        },
        None => None,
    }
}

/// The record that is written.
pub fn write_stamp_pins(
    now: i64,
    pins: NameMap,
    resolved: NameMap,
    requirements: NameMap,
    models: NameMap,
) -> (r: InstalledStamp)
    requires
        pins.wf(),
        resolved.wf(),
        requirements.wf(),
        models.wf(),
    ensures
        r.wf(),
        r@ == (Stamp {
            schema: STAMP_SCHEMA,
            installed_at: now,
            pins: pins@,
            resolved: resolved@,
            requirements: requirements@,
            models: models@,
        }),
{
    InstalledStamp {
        schema: STAMP_SCHEMA,
        installed_at: now,
        pins,
        resolved,
        requirements,
        models,
    }
}

/// Which model is read under each name: the one that is recorded; where none
/// is, the one of the baseline; where there is none either, this build's own.
pub open spec fn chosen_models(
    recorded: Map<Seq<char>, Seq<char>>,
    baseline: Map<Seq<char>, Seq<char>>,
    build: Map<Seq<char>, Seq<char>>,
) -> Map<Seq<char>, Seq<char>> {
    Map::new(
        |k: Seq<char>| build.contains_key(k),
        |k: Seq<char>|
            if recorded.contains_key(k) {
                recorded[k]
            } else if baseline.contains_key(k) {
                baseline[k]
            } else {
                build[k]
            },
    )
}

/// Chooses, name by name, which model is read.
pub fn pick_models_to_read(recorded: &NameMap, baseline: &NameMap, build: &NameMap) -> (r: NameMap)
    requires
        recorded.wf(),
        baseline.wf(),
        build.wf(),
    ensures
        r.wf(),
        r@ == chosen_models(recorded@, baseline@, build@),
{
    let list = build.names();
    let ghost n = text::texts(list@);
    let mut out = NameMap::new();
    let mut i: usize = 0;
    let ghost want = chosen_models(recorded@, baseline@, build@);
    while i < list.len()
        invariant
            i <= list@.len(),
            recorded.wf(),
            baseline.wf(),
            build.wf(),
            out.wf(),
            n == text::texts(list@),
            names::ascending(n),
            forall|k: Seq<char>| n.contains(k) <==> build@.contains_key(k),
            want == chosen_models(recorded@, baseline@, build@),
            forall|k: Seq<char>| #[trigger] out@.contains_key(k) ==> out@[k] == want[k],
            forall|k: Seq<char>| #[trigger] out@.contains_key(k) ==> build@.contains_key(k),
            forall|j: int| 0 <= j < i ==> out@.contains_key(#[trigger] n[j]),
        decreases list@.len() - i,
    {
        let name = list[i].as_str();
        assert(n[i as int] == name@);
        assert(n.contains(name@));
        let ghost before = out@;
        match recorded.get(name) {
            Some(v) => {
                out.insert(name, v.as_str());
            },
            None => match baseline.get(name) {
                Some(v) => {
                    out.insert(name, v.as_str());
                },
                None => match build.get(name) {
                    Some(v) => {
                        out.insert(name, v.as_str());
                    },
                    None => {},
                },
            },
        }
        assert(out@ == before.insert(name@, want[name@]));
        i += 1;
    }
    proof {
        assert forall|k: Seq<char>| want.contains_key(k) implies out@.contains_key(k) by {
            assert(n.contains(k));
            let j = choose|j: int| 0 <= j < n.len() && n[j] == k;
            assert(out@.contains_key(n[j]));
        }
        assert(out@ =~= want);
    }
    out
}

/// What is read catches up with what this build fetches once it is recorded as
/// installed, name by name; until then it stays what it was.
pub proof fn reading_follows_the_record(
    recorded: Map<Seq<char>, Seq<char>>,
    baseline: Map<Seq<char>, Seq<char>>,
    build: Map<Seq<char>, Seq<char>>,
    installed: Seq<Seq<char>>,
    k: Seq<char>,
)
    ensures
        ({
            let before = chosen_models(recorded, baseline, build);
            let after = chosen_models(names::merged(recorded, build, installed), baseline, build);
            &&& after.dom() == build.dom()
            &&& names::at(after, k) == (if installed.contains(k) {
                names::at(build, k)
            } else {
                names::at(before, k)
            })
        }),
{
    let after = chosen_models(names::merged(recorded, build, installed), baseline, build);
    assert(after.dom() =~= build.dom());
}

/// The models that a record holds; none where there is no record.
pub open spec fn recorded_models(o: Option<Stamp>) -> Map<Seq<char>, Seq<char>> {
    match o {
        Some(s) => s.models,
        None => Map::empty(),
    }
}

/// The models that are read, given the record.
pub fn models_to_read(stamp: &Option<InstalledStamp>) -> (r: NameMap)
    requires
        opt_stamp_wf(*stamp),
    ensures
        r.wf(),
        r@ == chosen_models(recorded_models(opt_stamp(*stamp)), baseline_models(), models_now()),
{
    let baseline = v054_baseline_models();
    let build = current_models();
    match stamp {
        Some(s) => pick_models_to_read(&s.models, &baseline, &build),
        None => {
            let empty = NameMap::new();
            pick_models_to_read(&empty, &baseline, &build)
        },
    }
}

/// Where the choice of the models came from.
pub open spec fn models_source(o: Option<Stamp>) -> Seq<char> {
    match o {
        None => "基準値"@,
        Some(s) => if forall|k: Seq<char>| models_now().contains_key(k) ==> s.models.contains_key(
            k,
        ) {
            "記録"@
        } else if s.models != Map::<Seq<char>, Seq<char>>::empty() {
            "記録と基準値"@
        } else {
            "基準値"@
        },
    }
}

/// Where the choice of the models came from: the record, the baseline or both.
pub fn where_models_come_from(stamp: &Option<InstalledStamp>) -> (r: &'static str)
    requires
        opt_stamp_wf(*stamp),
    ensures
        r@ == models_source(opt_stamp(*stamp)),
{
    match stamp {
        None => "基準値",
        Some(s) => {
            let build = current_models();
            let list = build.names();
            let ghost n = text::texts(list@);
            let mut i: usize = 0;
            while i < list.len()
                invariant
                    i <= list@.len(),
                    s.wf(),
                    n == text::texts(list@),
                    forall|k: Seq<char>| n.contains(k) <==> models_now().contains_key(k),
                    forall|j: int| 0 <= j < i ==> s.models@.contains_key(#[trigger] n[j]),
                    opt_stamp(*stamp) == Some(s@),
                decreases list@.len() - i,
            {
                assert(n[i as int] == list@[i as int]@);
                assert(n.contains(n[i as int]));
                if !s.models.contains_key(list[i].as_str()) {
                    assert(models_now().contains_key(n[i as int]));
                    if s.models.is_empty() {
                        return "基準値";
                    }
                    return "記録と基準値";
                }
                i += 1;
            }
            proof {
                assert forall|k: Seq<char>| models_now().contains_key(k) implies s.models@.contains_key(
                    k,
                ) by {
                    assert(n.contains(k));
                    let j = choose|j: int| 0 <= j < n.len() && n[j] == k;
                    assert(s.models@.contains_key(n[j]));
                }
            }
            "記録"
        },
    }
}

/// The arguments that tell the sidecar which models to read, given the record,
/// and where that choice came from.
pub fn model_args_for_read(stamp: &Option<InstalledStamp>) -> (r: (Vec<String>, &'static str))
    requires
        opt_stamp_wf(*stamp),
    ensures
        ({
            let m = chosen_models(
                recorded_models(opt_stamp(*stamp)),
                baseline_models(),
                models_now(),
            );
            text::texts(r.0@) == model_args(names::sorted_names(m), m, 0)
        }),
        r.1@ == models_source(opt_stamp(*stamp)),
{
    let models = models_to_read(stamp);
    (model_args_from(&models), where_models_come_from(stamp))
}

/// The sources to be recorded after those of the given names were installed.
/// Python is recorded only where what is installed was found to be what is
/// pinned.
pub open spec fn pins_after(
    recorded: Map<Seq<char>, Seq<char>>,
    installed: Seq<Seq<char>>,
    python_matches: bool,
) -> Map<Seq<char>, Seq<char>> {
    let m = names::merged(recorded, pins_now(), installed);
    if python_matches {
        m.insert("python"@, PYTHON_URL@)
    } else {
        m
    }
}

/// The sources to be recorded after those of the given names were installed.
pub fn merged_pins(recorded: &NameMap, updated: &Vec<String>, python_matches: bool) -> (r: NameMap)
    requires
        recorded.wf(),
    ensures
        r.wf(),
        r@ == pins_after(recorded@, text::texts(updated@), python_matches),
{
    let current = current_pins();
    let mut pins = merge_named(recorded, &current, updated);
    if python_matches {
        match current.get("python") {
            Some(url) => {
                pins.insert("python", url.as_str());
            },
            None => {},
        }
        proof {
            lemma_python_pinned();
        }
    }
    pins
}

proof fn lemma_python_pinned()
    ensures
        pins_now().contains_key("python"@),
        pins_now()["python"@] == PYTHON_URL@,
{
    reveal_strlit("python");
    reveal_strlit("silentcipher");
    reveal_strlit("dacvae");
    reveal_strlit("irodori_tts");
    assert("python"@.len() != "silentcipher"@.len());
    assert("python"@.len() != "irodori_tts"@.len());
    assert("python"@[0] != "dacvae"@[0]);
}

/// The packages to be recorded after those of the given names were installed.
pub fn merged_requirements(recorded: &NameMap, installed: &Vec<String>) -> (r: NameMap)
    requires
        recorded.wf(),
    ensures
        r.wf(),
        r@ == names::merged(recorded@, requirements_now(), text::texts(installed@)),
{
    merge_named(recorded, &current_requirements(), installed)
}

/// The models to be recorded after those of the given names were installed.
pub fn merged_models(recorded: &NameMap, installed: &Vec<String>) -> (r: NameMap)
    requires
        recorded.wf(),
    ensures
        r.wf(),
        r@ == names::merged(recorded@, models_now(), text::texts(installed@)),
{
    merge_named(recorded, &current_models(), installed)
}

/// The position of the last slash before `i`, or -1.
pub open spec fn last_slash(s: Seq<char>, i: int) -> int
    decreases i,
{
    if i <= 0 {
        -1
    } else if s[i - 1] == '/' {
        i - 1
    } else {
        last_slash(s, i - 1)
    }
}

/// The first position at or after `i` of a hyphen, or the end.
pub open spec fn hyphen_at(s: Seq<char>, i: int) -> int
    decreases s.len() - i,
    when 0 <= i <= s.len()
{
    if i == s.len() || s[i] == '-' {
        i
    } else {
        hyphen_at(s, i + 1)
    }
}

/// The version in the URL of a Python archive: what follows `python-` in the
/// file's name, up to the next hyphen.
pub open spec fn url_version(u: Seq<char>) -> Option<Seq<char>> {
    let file = u.skip(last_slash(u, u.len() as int) + 1);
    if "python-"@.is_prefix_of(file) {
        let rest = file.skip("python-"@.len() as int);
        Some(rest.take(hyphen_at(rest, 0)))
    } else {
        None
    }
}

proof fn lemma_last_slash(s: Seq<char>, i: int)
    requires
        0 <= i <= s.len(),
    ensures
        -1 <= last_slash(s, i) < i,
    decreases i,
{
    if i > 0 && s[i - 1] != '/' {
        lemma_last_slash(s, i - 1);
    }
}

proof fn lemma_last_slash_at(s: Seq<char>, i: int, k: int)
    requires
        0 <= k < i <= s.len(),
        s[k] == '/',
        forall|j: int| k < j < i ==> #[trigger] s[j] != '/',
    ensures
        last_slash(s, i) == k,
    decreases i,
{
    if i - 1 > k {
        assert(s[i - 1] != '/');
        lemma_last_slash_at(s, i - 1, k);
    }
}

proof fn lemma_hyphen_at(s: Seq<char>, i: int, k: int)
    requires
        0 <= i <= k < s.len(),
        s[k] == '-',
        forall|j: int| i <= j < k ==> #[trigger] s[j] != '-',
    ensures
        hyphen_at(s, i) == k,
    decreases k - i,
{
    if i < k {
        assert(s[i] != '-');
        lemma_hyphen_at(s, i + 1, k);
    }
}

/// The URL that Python is pinned to names its version.
pub proof fn the_pin_names_its_version()
    ensures
        url_version(PYTHON_URL@) == Some(PYTHON_VERSION@),
{
    reveal_strlit("https://www.python.org/ftp/python/3.11.9/python-3.11.9-embed-amd64.zip");
    reveal_strlit("python-");
    reveal_strlit("3.11.9");
    let u = PYTHON_URL@;
    assert(u.len() == 70);
    lemma_last_slash_at(u, u.len() as int, 40);
    let file = u.skip(41);
    assert("python-"@ =~= file.take(7));
    assert("python-"@.is_prefix_of(file));
    let rest = file.skip(7);
    lemma_hyphen_at(rest, 0, 6);
    assert(rest.take(6) =~= PYTHON_VERSION@);
}

/// The version in the URL of a Python archive.
pub fn version_in_url(url: &str) -> (r: Option<String>)
    ensures
        text::opt_text(r) == url_version(url@),
{
    let cs = chars_of(url);
    let mut a: usize = cs.len();
    while a > 0 && cs[a - 1] != '/'
        invariant
            a <= cs@.len(),
            cs@ == url@,
            last_slash(url@, cs@.len() as int) == last_slash(url@, a as int),
        decreases a,
    {
        a -= 1;
    }
    let file = slice_text(&cs, a, cs.len());
    assert(file@ =~= url@.skip(last_slash(url@, url@.len() as int) + 1));
    if !starts_with(file.as_str(), "python-") {
        return None;
    }
    let fs = chars_of(file.as_str());
    let head = chars_of("python-");
    let rest = slice_text(&fs, head.len(), fs.len());
    assert(rest@ =~= file@.skip("python-"@.len() as int));
    let rs = chars_of(rest.as_str());
    let mut e: usize = 0;
    while e < rs.len() && rs[e] != '-'
        invariant
            e <= rs@.len(),
            rs@ == rest@,
            hyphen_at(rest@, 0) == hyphen_at(rest@, e as int),
        decreases rs@.len() - e,
    {
        e += 1;
    }
    let v = slice_text(&rs, 0, e);
    assert(v@ =~= rest@.take(hyphen_at(rest@, 0)));
    Some(v)
}

/// The version of Python that is pinned.
pub fn pinned_python_version() -> (r: Option<String>)
    ensures
        text::opt_text(r) == Some(PYTHON_VERSION@),
        text::opt_text(r) == url_version(PYTHON_URL@),
{
    proof {
        the_pin_names_its_version();
    }
    version_in_url(PYTHON_URL)
}

/// The version that a line of output names, if it does.
pub open spec fn version_line(line: Seq<char>) -> Option<Seq<char>> {
    let l = text::trimmed(line);
    if "Python "@.is_prefix_of(l) {
        Some(text::trimmed(l.skip("Python "@.len() as int)))
    } else {
        None
    }
}

/// The version that the last of the first `n` lines to name one names.
pub open spec fn last_version(lines: Seq<Seq<char>>, n: int) -> Option<Seq<char>>
    decreases n,
{
    if n <= 0 {
        None
    } else if version_line(lines[n - 1]) is Some {
        version_line(lines[n - 1])
    } else {
        last_version(lines, n - 1)
    }
}

/// The version of the Python that is installed, as it says itself: from what
/// it wrote when asked, if it ran without failing.
pub fn installed_python_version(ran: bool, lines: &Vec<String>) -> (r: Option<String>)
    ensures
        text::opt_text(r) == (if ran {
            last_version(text::texts(lines@), lines@.len() as int)
        } else {
            None
        }),
{
    if !ran {
        return None;
    }
    let mut found: Option<String> = None;
    let mut i: usize = 0;
    while i < lines.len()
        invariant
            i <= lines@.len(),
            text::opt_text(found) == last_version(text::texts(lines@), i as int),
        decreases lines@.len() - i,
    {
        assert(text::texts(lines@)[i as int] == lines@[i as int]@);
        let l = trim(lines[i].as_str());
        if starts_with(l.as_str(), "Python ") {
            let cs = chars_of(l.as_str());
            let head = chars_of("Python ");
            let rest = slice_text(&cs, head.len(), cs.len());
            assert(rest@ =~= l@.skip("Python "@.len() as int));
            found = Some(trim(rest.as_str()));
        }
        i += 1;
    }
    found
}

/// The record after those of the given names were installed, given the record
/// before, the versions found and what Python says of itself.
pub open spec fn stamp_after(
    before: Option<Stamp>,
    installed: Seq<Seq<char>>,
    found: Map<Seq<char>, Seq<char>>,
    python: Option<Seq<char>>,
    now: i64,
) -> Stamp {
    let base = match before {
        Some(s) => s,
        None => Stamp {
            schema: STAMP_SCHEMA,
            installed_at: 0,
            pins: Map::empty(),
            resolved: Map::empty(),
            requirements: Map::empty(),
            models: Map::empty(),
        },
    };
    let resolved = base.resolved.union_prefer_right(found);
    Stamp {
        schema: STAMP_SCHEMA,
        installed_at: now,
        pins: pins_after(base.pins, installed, python == url_version(PYTHON_URL@)),
        resolved: (match python {
            Some(v) => resolved.insert("python"@, v),
            None => resolved,
        }),
        requirements: names::merged(base.requirements, requirements_now(), installed),
        models: names::merged(base.models, models_now(), installed),
    }
}

/// The record after those of the given names were installed.
pub fn record_after_install(
    stamp: &Option<InstalledStamp>,
    installed: &Vec<String>,
    found: &NameMap,
    py_version: &Option<String>,
    now: i64,
) -> (r: InstalledStamp)
    requires
        opt_stamp_wf(*stamp),
        found.wf(),
    ensures
        r.wf(),
        r@ == stamp_after(
            opt_stamp(*stamp),
            text::texts(installed@),
            found@,
            text::opt_text(*py_version),
            now,
        ),
{
    let base = match stamp {
        Some(s) => s.copy(),
        None => write_stamp_pins(
            0,
            NameMap::new(),
            NameMap::new(),
            NameMap::new(),
            NameMap::new(),
        ),
    };
    let mut resolved = base.resolved.copy();
    resolved.extend(found);
    let python_matches = match (py_version, pinned_python_version()) {
        (Some(a), Some(b)) => same(a.as_str(), b.as_str()),
        (None, None) => true,
        _ => false,
    };
    match py_version {
        Some(v) => {
            resolved.insert("python", v.as_str());
        },
        None => {},
    }
    write_stamp_pins(
        now,
        merged_pins(&base.pins, installed, python_matches),
        resolved,
        merged_requirements(&base.requirements, installed),
        merged_models(&base.models, installed),
    )
}

/// The name is of something that a first installation installs.
pub open spec fn is_installed_first(k: Seq<char>) -> bool {
    (pins_now().contains_key(k) && pin_of(k) is Some) || requirements_now().contains_key(k)
        || models_now().contains_key(k)
}

/// Everything that a first installation installs: the pinned sources that can
/// be installed anew, every package and every model. Python is not among them:
/// where one is there already, it is left as it is.
pub fn first_installed() -> (r: Vec<String>)
    ensures
        forall|k: Seq<char>| #[trigger] text::texts(r@).contains(k) <==> is_installed_first(k),
{
    let pins = current_pins().names();
    let mut reqs = current_requirements().names();
    let mut models = current_models().names();
    let ghost p = text::texts(pins@);
    let ghost q = text::texts(reqs@);
    let ghost m = text::texts(models@);
    let mut out: Vec<String> = Vec::new();
    let mut i: usize = 0;
    while i < pins.len()
        invariant
            i <= pins@.len(),
            p == text::texts(pins@),
            forall|k: Seq<char>|
                #[trigger] text::texts(out@).contains(k) <==> (exists|j: int|
                    0 <= j < i && #[trigger] p[j] == k) && pin_of(k) is Some,
        decreases pins@.len() - i,
    {
        let ghost before = text::texts(out@);
        assert(p[i as int] == pins@[i as int]@);
        if updatable_pin(pins[i].as_str()).is_some() {
            out.push(owned(pins[i].as_str()));
            let ghost after = text::texts(out@);
            assert(after =~= before.push(p[i as int]));
            assert forall|k: Seq<char>| after.contains(k) <==> before.contains(k) || k
                == p[i as int] by {
                if before.contains(k) {
                    let j = choose|j: int| 0 <= j < before.len() && before[j] == k;
                    assert(after[j] == k);
                }
                if k == p[i as int] {
                    assert(after[after.len() - 1] == k);
                }
                if after.contains(k) && k != p[i as int] {
                    let j = choose|j: int| 0 <= j < after.len() && after[j] == k;
                    assert(before[j] == k);
                }
            }
        }
        i += 1;
    }
    let ghost a = out@;
    let ghost b = reqs@;
    let ghost c = models@;
    out.append(&mut reqs);
    out.append(&mut models);
    proof {
        let s = text::texts(a);
        let all = text::texts(out@);
        assert(out@ =~= a + b + c);
        assert(all =~= s + q + m);
        assert forall|k: Seq<char>| all.contains(k) <==> is_installed_first(k) by {
            if s.contains(k) {
                let j = choose|j: int| 0 <= j < s.len() && s[j] == k;
                assert(all[j] == k);
                assert(p.contains(k));
            }
            if q.contains(k) {
                let j = choose|j: int| 0 <= j < q.len() && q[j] == k;
                assert(all[s.len() + j] == k);
            }
            if m.contains(k) {
                let j = choose|j: int| 0 <= j < m.len() && m[j] == k;
                assert(all[s.len() + q.len() + j] == k);
            }
            if all.contains(k) {
                let j = choose|j: int| 0 <= j < all.len() && all[j] == k;
                if j < s.len() {
                    assert(s[j] == k);
                    assert(s.contains(k));
                    let h = choose|h: int| 0 <= h < p.len() && #[trigger] p[h] == k;
                    assert(p.contains(k));
                } else if j < s.len() + q.len() {
                    assert(q[j - s.len()] == k);
                    assert(q.contains(k));
                } else {
                    assert(m[j - s.len() - q.len()] == k);
                    assert(m.contains(k));
                }
            }
            if pins_now().contains_key(k) && pin_of(k) is Some {
                assert(p.contains(k));
                let h = choose|h: int| 0 <= h < p.len() && p[h] == k;
                assert(p[h] == k);
                assert(s.contains(k));
            }
        }
    }
    out
}

/// The record after a first installation.
pub fn record_installed(
    stamp: &Option<InstalledStamp>,
    found: &NameMap,
    py_version: &Option<String>,
    now: i64,
) -> (r: InstalledStamp)
    requires
        opt_stamp_wf(*stamp),
        found.wf(),
    ensures
        r.wf(),
        exists|installed: Seq<Seq<char>>|
            (forall|k: Seq<char>| installed.contains(k) <==> is_installed_first(k)) && r@
                == #[trigger] stamp_after(
                opt_stamp(*stamp),
                installed,
                found@,
                text::opt_text(*py_version),
                now,
            ),
{
    let installed = first_installed();
    record_after_install(stamp, &installed, found, py_version, now)
}

/// The directory of Python.
pub fn python_dir(irodori_root: &AssetPath) -> (r: AssetPath)
    ensures
        r@ == paths::below(irodori_root@, "python"@),
{
    irodori_root.join("python")
}

/// Python itself.
pub fn python_exe(irodori_root: &AssetPath) -> (r: AssetPath)
    ensures
        r@ == paths::below(paths::below(irodori_root@, "python"@), "python.exe"@),
{
    python_dir(irodori_root).join("python.exe")
}

/// Where the packages are.
pub open spec fn site_place(root: paths::Place) -> paths::Place {
    paths::below(paths::below(paths::below(root, "python"@), "Lib"@), "site-packages"@)
}

/// Where the packages are.
pub fn site_of(irodori_root: &AssetPath) -> (r: AssetPath)
    ensures
        r@ == site_place(irodori_root@),
{
    python_dir(irodori_root).join("Lib").join("site-packages")
}

/// Where the record is.
pub fn stamp_path(irodori_root: &AssetPath) -> (r: AssetPath)
    ensures
        r@ == paths::below(irodori_root@, STAMP_FILE@),
{
    irodori_root.join(STAMP_FILE)
}

proof fn lemma_name_end_at(s: Seq<char>, i: int, e: int)
    requires
        0 <= i <= e <= s.len(),
        forall|j: int| i <= j < e ==> !ends_name(#[trigger] s[j]),
        e < s.len() ==> ends_name(s[e]),
    ensures
        name_end(s, i) == e,
    decreases e - i,
{
    if i < e {
        lemma_name_end_at(s, i + 1, e);
    }
}

/// A requirement names what stands before its extras, its versions, its markers or
/// the first blank.
pub proof fn a_requirement_begins_with_its_name(name: Seq<char>, rest: Seq<char>)
    requires
        name.len() > 0,
        !text::is_white(name[0]),
        !text::is_white(name.last()),
        forall|j: int|
            0 <= j < name.len() ==> {
                let c = #[trigger] name[j];
                c != '[' && c != '=' && c != '<' && c != '>' && c != '!' && c != '~' && c != ';'
                    && c != ' '
            },
        rest.len() > 0 ==> {
            let c = rest[0];
            c == '[' || c == '=' || c == '<' || c == '>' || c == '!' || c == '~' || c == ';' || c
                == ' '
        },
    ensures
        req_name(name + rest) == name,
{
    let s = name + rest;
    let e = name.len() as int;
    assert forall|j: int| 0 <= j < e implies !ends_name(#[trigger] s[j]) by {
        assert(s[j] == name[j]);
    }
    if e < s.len() {
        assert(s[e] == rest[0]);
    }
    lemma_name_end_at(s, 0, e);
    assert(s.take(e) =~= name);
    assert(text::trimmed(name) == name);
}

/// A table of requirements holds exactly the names of the requirements, each with a
/// requirement of that name.
pub proof fn requirements_stand_under_their_names(s: Seq<Seq<char>>, n: int, k: int)
    requires
        0 <= n <= s.len(),
    ensures
        forall|x: Seq<char>| #[trigger]
            specs_table(s, n).contains_key(x) ==> req_name(specs_table(s, n)[x]) == x,
        forall|x: Seq<char>| #[trigger]
            specs_table(s, n).contains_key(x) ==> s.contains(specs_table(s, n)[x]),
        0 <= k < n ==> specs_table(s, n).contains_key(req_name(s[k])),
        0 <= k < n && (forall|i: int| k < i < n ==> req_name(#[trigger] s[i]) != req_name(s[k]))
            ==> specs_table(s, n)[req_name(s[k])] == s[k],
    decreases n,
{
    if n > 0 {
        requirements_stand_under_their_names(s, n - 1, k);
        assert(s.contains(s[n - 1]));
        if 0 <= k < n - 1 && (forall|i: int|
            k < i < n ==> req_name(#[trigger] s[i]) != req_name(s[k])) {
            assert(req_name(s[n - 1]) != req_name(s[k]));
        }
    }
}

/// The names of a list that are added to others: all of both are there, none is added
/// twice, and those that were there stay in front.
pub proof fn new_names_are_added_once(names: Seq<Seq<char>>, more: Seq<Seq<char>>, i: int)
    requires
        0 <= i <= more.len(),
    ensures
        names.is_prefix_of(with_new(names, more, i)),
        forall|x: Seq<char>| #[trigger]
            with_new(names, more, i).contains(x) <==> names.contains(x) || more.skip(i).contains(x),
        names.no_duplicates() ==> with_new(names, more, i).no_duplicates(),
    decreases more.len() - i,
{
    let r = with_new(names, more, i);
    if i == more.len() {
        assert(more.skip(i) =~= Seq::<Seq<char>>::empty());
    } else {
        let next = if names.contains(more[i]) {
            names
        } else {
            names.push(more[i])
        };
        new_names_are_added_once(next, more, i + 1);
        assert(more.skip(i) =~= seq![more[i]] + more.skip(i + 1));
        assert(next.is_prefix_of(r));
        assert(names.is_prefix_of(r)) by {
            assert(forall|j: int| 0 <= j < names.len() ==> names[j] == #[trigger] next[j]);
        }
        assert forall|x: Seq<char>| #[trigger]
            r.contains(x) <==> names.contains(x) || more.skip(i).contains(x) by {
            lemma_add_contains(more[i], more.skip(i + 1), x);
            lemma_push_contains(names, more[i], x);
        }
        if names.no_duplicates() {
            assert(next.no_duplicates());
        }
    }
}

proof fn lemma_push_contains(s: Seq<Seq<char>>, y: Seq<char>, x: Seq<char>)
    ensures
        s.push(y).contains(x) <==> s.contains(x) || x == y,
{
    let p = s.push(y);
    if s.contains(x) {
        let j = choose|j: int| 0 <= j < s.len() && s[j] == x;
        assert(p[j] == x);
    }
    if x == y {
        assert(p[s.len() as int] == x);
    }
    if p.contains(x) {
        let j = choose|j: int| 0 <= j < p.len() && p[j] == x;
        if j < s.len() {
            assert(s[j] == x);
        }
    }
}

proof fn lemma_add_contains(y: Seq<char>, s: Seq<Seq<char>>, x: Seq<char>)
    ensures
        (seq![y] + s).contains(x) <==> s.contains(x) || x == y,
{
    let p = seq![y] + s;
    if s.contains(x) {
        let j = choose|j: int| 0 <= j < s.len() && s[j] == x;
        assert(p[j + 1] == x);
    }
    if x == y {
        assert(p[0] == x);
    }
    if p.contains(x) {
        let j = choose|j: int| 0 <= j < p.len() && p[j] == x;
        if j > 0 {
            assert(s[j - 1] == x);
        }
    }
}

proof fn lemma_last_at(s: Seq<char>, i: int)
    requires
        0 <= i <= s.len(),
    ensures
        -1 <= last_at(s, i) < i || last_at(s, i) == -1,
        last_at(s, i) >= 0 ==> s[last_at(s, i)] == '@',
        forall|j: int| last_at(s, i) < j < i ==> s[j] != '@',
    decreases i,
{
    if i > 0 {
        lemma_last_at(s, i - 1);
    }
}

/// A model is written as its repository and its revision with an at sign between
/// them, the last one; without a revision, or without a repository, it is the
/// repository as it is written, at its main revision.
pub proof fn a_model_is_its_repository_and_revision(repo: Seq<char>, rev: Seq<char>, v: Seq<char>)
    ensures
        repo.len() > 0 && rev.len() > 0 && !rev.contains('@') ==> model_parts(
            repo + seq!['@'] + rev,
        ) == (repo, rev),
        !v.contains('@') ==> model_parts(v) == (v, "main"@),
        !rev.contains('@') ==> model_parts(seq!['@'] + rev) == (seq!['@'] + rev, "main"@),
        model_parts(v.push('@')) == (v.push('@'), "main"@),
{
    let w = repo + seq!['@'] + rev;
    lemma_last_at(w, w.len() as int);
    if repo.len() > 0 && rev.len() > 0 && !rev.contains('@') {
        let i = last_at(w, w.len() as int);
        assert(w[repo.len() as int] == '@');
        if i > repo.len() {
            assert(w[i] == rev[i - repo.len() - 1]);
            assert(rev.contains(w[i]));
        }
        assert(i == repo.len());
        assert(w.take(i) =~= repo);
        assert(w.skip(i + 1) =~= rev);
    }
    lemma_last_at(v, v.len() as int);
    if !v.contains('@') {
        let i = last_at(v, v.len() as int);
        if i >= 0 {
            assert(v.contains(v[i]));
        }
    }
    let x = seq!['@'] + rev;
    lemma_last_at(x, x.len() as int);
    if !rev.contains('@') {
        let i = last_at(x, x.len() as int);
        if i > 0 {
            assert(x[i] == rev[i - 1]);
            assert(rev.contains(x[i]));
        }
    }
    let y = v.push('@');
    lemma_last_at(y, y.len() as int);
    assert(y[y.len() - 1] == '@');
}

/// Every model that has an option is handed over, in the order of the names: its
/// option with the repository, and the same option of the revision with the revision.
pub proof fn every_model_is_handed_over(
    n: Seq<Seq<char>>,
    m: Map<Seq<char>, Seq<char>>,
    i: int,
)
    requires
        0 <= i <= n.len(),
    ensures
        model_args(n, m, i) == Seq::new(
            (n.len() - i) as nat,
            |k: int| one_model_args(n[i + k], m[n[i + k]]),
        ).flatten(),
    decreases n.len() - i,
{
    let t = Seq::new((n.len() - i) as nat, |k: int| one_model_args(n[i + k], m[n[i + k]]));
    if i == n.len() {
        assert(t =~= Seq::<Seq<Seq<char>>>::empty());
    } else {
        every_model_is_handed_over(n, m, i + 1);
        assert(t.drop_first() =~= Seq::new(
            (n.len() - (i + 1)) as nat,
            |k: int| one_model_args(n[i + 1 + k], m[n[i + 1 + k]]),
        ));
        assert(t[0] == one_model_args(n[i], m[n[i]]));
    }
}

/// A model's option and that of its revision each stand before their value.
pub proof fn a_model_has_two_options(value: Seq<char>)
    ensures
        one_model_args("model_synth"@, value) == seq![
            "--model-synth"@,
            model_parts(value).0,
            "--model-synth"@ + "-revision"@,
            model_parts(value).1,
        ],
        one_model_args("model_voice_design"@, value) == seq![
            "--model-voice-design"@,
            model_parts(value).0,
            "--model-voice-design"@ + "-revision"@,
            model_parts(value).1,
        ],
        one_model_args("model_codec"@, value) == seq![
            "--model-codec"@,
            model_parts(value).0,
            "--model-codec"@ + "-revision"@,
            model_parts(value).1,
        ],
{
    reveal_strlit("model_synth");
    reveal_strlit("model_voice_design");
    reveal_strlit("model_codec");
    assert("model_synth"@.len() == 11);
    assert("model_voice_design"@.len() == 18);
    assert("model_codec"@.len() == 11);
    assert("model_synth"@[6] == 's');
    assert("model_codec"@[6] == 'c');
}

proof fn lemma_slash_is_last(s: Seq<char>, i: int)
    requires
        0 <= i <= s.len(),
    ensures
        last_slash(s, i) < i || last_slash(s, i) == -1,
        last_slash(s, i) >= -1,
        last_slash(s, i) >= 0 ==> s[last_slash(s, i)] == '/',
        forall|j: int| last_slash(s, i) < j < i ==> s[j] != '/',
    decreases i,
{
    if i > 0 {
        lemma_slash_is_last(s, i - 1);
    }
}

/// The version in an address is what stands, in its last part, between `python-` and
/// the next hyphen.
pub proof fn an_address_names_its_version(front: Seq<char>, version: Seq<char>, rest: Seq<char>)
    requires
        !version.contains('-'),
        !version.contains('/'),
        !rest.contains('/'),
    ensures
        url_version(front + seq!['/'] + "python-"@ + version + seq!['-'] + rest) == Some(version),
{
    reveal_strlit("python-");
    let file = "python-"@ + version + seq!['-'] + rest;
    let u = front + seq!['/'] + "python-"@ + version + seq!['-'] + rest;
    assert(u =~= front + seq!['/'] + file);
    lemma_slash_is_last(u, u.len() as int);
    let i = last_slash(u, u.len() as int);
    assert(u[front.len() as int] == '/');
    assert forall|j: int| 0 <= j < file.len() implies file[j] != '/' by {
        if j < 7 {
            assert(file[j] == "python-"@[j]);
        } else if j < 7 + version.len() {
            assert(file[j] == version[j - 7]);
            assert(version.contains(file[j]));
        } else if j > 7 + version.len() {
            assert(file[j] == rest[j - 8 - version.len()]);
            assert(rest.contains(file[j]));
        }
    }
    if i > front.len() {
        assert(u[i] == file[i - front.len() - 1]);
    }
    assert(i == front.len());
    assert(u.skip(i + 1) =~= file);
    assert("python-"@.is_prefix_of(file));
    let tail = file.skip(7);
    assert(tail =~= version + seq!['-'] + rest);
    assert forall|j: int| 0 <= j < version.len() implies tail[j] != '-' by {
        assert(tail[j] == version[j]);
        assert(version.contains(tail[j]));
    }
    lemma_hyphen_at(tail, 0, version.len() as int);
    assert(tail.take(version.len() as int) =~= version);
}

/// Of the lines in which Python tells its version the last one counts; where none
/// does, it is not known.
pub proof fn the_last_version_told_counts(l: Seq<Seq<char>>, n: int, k: int)
    requires
        0 <= n <= l.len(),
    ensures
        0 <= k < n && version_line(l[k]) is Some && (forall|i: int|
            k < i < n ==> version_line(#[trigger] l[i]) is None) ==> last_version(l, n)
            == version_line(l[k]),
        (forall|i: int| 0 <= i < n ==> version_line(#[trigger] l[i]) is None) ==> last_version(
            l,
            n,
        ) is None,
    decreases n,
{
    if n > 0 {
        the_last_version_told_counts(l, n - 1, k);
        if 0 <= k < n - 1 && (forall|i: int| k < i < n ==> version_line(#[trigger] l[i]) is None) {
            assert(version_line(l[n - 1]) is None);
        }
        if forall|i: int| 0 <= i < n ==> version_line(#[trigger] l[i]) is None {
            assert(version_line(l[n - 1]) is None);
        }
    }
}

/// The record after an installation: what was installed is recorded as it is wanted
/// now, everything else as it was recorded before; of the versions that were found
/// the new ones count, and those that were not found stay; Python is recorded as
/// pinned once it has the version of its pin.
pub proof fn the_record_after_an_installation(
    before: Stamp,
    installed: Seq<Seq<char>>,
    found: Map<Seq<char>, Seq<char>>,
    python: Option<Seq<char>>,
    now: i64,
    k: Seq<char>,
)
    ensures
        ({
            let s = stamp_after(Some(before), installed, found, python, now);
            &&& s.schema == 1
            &&& s.installed_at == now
            &&& names::at(s.requirements, k) == (if installed.contains(k)
                && requirements_now().contains_key(k) {
                Some(requirements_now()[k])
            } else {
                names::at(before.requirements, k)
            })
            &&& names::at(s.models, k) == (if installed.contains(k) && models_now().contains_key(k) {
                Some(models_now()[k])
            } else {
                names::at(before.models, k)
            })
            &&& k != "python"@ ==> names::at(s.pins, k) == (if installed.contains(k)
                && pins_now().contains_key(k) {
                Some(pins_now()[k])
            } else {
                names::at(before.pins, k)
            })
            &&& python == Some(PYTHON_VERSION@) ==> names::at(s.pins, "python"@) == Some(
                PYTHON_URL@,
            )
            &&& python != Some(PYTHON_VERSION@) && !installed.contains("python"@) ==> names::at(
                s.pins,
                "python"@,
            ) == names::at(before.pins, "python"@)
            &&& k != "python"@ || python is None ==> names::at(s.resolved, k) == (
            if found.contains_key(k) {
                Some(found[k])
            } else {
                names::at(before.resolved, k)
            })
            &&& python is Some ==> names::at(s.resolved, "python"@) == python
        }),
{
    the_pin_names_its_version();
}

/// The first record holds what was installed and nothing else.
pub proof fn the_first_record(
    installed: Seq<Seq<char>>,
    found: Map<Seq<char>, Seq<char>>,
    python: Option<Seq<char>>,
    now: i64,
    k: Seq<char>,
)
    ensures
        ({
            let s = stamp_after(None, installed, found, python, now);
            &&& s.schema == 1 && s.installed_at == now
            &&& s.requirements.contains_key(k) <==> installed.contains(k)
                && requirements_now().contains_key(k)
            &&& s.models.contains_key(k) <==> installed.contains(k) && models_now().contains_key(k)
            &&& k != "python"@ ==> (s.pins.contains_key(k) <==> installed.contains(k)
                && pins_now().contains_key(k))
            &&& k != "python"@ ==> (s.resolved.contains_key(k) <==> found.contains_key(k))
        }),
{
}

/// The models that are read are those of the record; one that it lacks is that of
/// the first releases, and one that they lacked that of this build. Every model of
/// this build is there and no other.
pub proof fn models_are_read_as_recorded(
    recorded: Map<Seq<char>, Seq<char>>,
    baseline: Map<Seq<char>, Seq<char>>,
    build: Map<Seq<char>, Seq<char>>,
    k: Seq<char>,
)
    ensures
        chosen_models(recorded, baseline, build).contains_key(k) <==> build.contains_key(k),
        build.contains_key(k) && recorded.contains_key(k) ==> chosen_models(
            recorded,
            baseline,
            build,
        )[k] == recorded[k],
        build.contains_key(k) && !recorded.contains_key(k) && baseline.contains_key(k)
            ==> chosen_models(recorded, baseline, build)[k] == baseline[k],
        build.contains_key(k) && !recorded.contains_key(k) && !baseline.contains_key(k)
            ==> chosen_models(recorded, baseline, build)[k] == build[k],
{
}

/// PyTorch and its sound library come from their own index, and nothing else does.
pub proof fn torch_and_torchaudio_need_their_index(x: Seq<char>)
    ensures
        is_torch(x) <==> x == "torch"@ || x == "torchaudio"@,
{
    reveal_strlit("torch");
    reveal_strlit("torchaudio");
    reveal_strlit("torch>=2.10.0,<2.11.0");
    reveal_strlit("torchaudio>=2.10.0,<2.11.0");
    let a = "torch>=2.10.0,<2.11.0"@;
    let b = "torchaudio>=2.10.0,<2.11.0"@;
    let ra = a.skip(5);
    let rb = b.skip(10);
    assert(a =~= "torch"@ + ra);
    assert(b =~= "torchaudio"@ + rb);
    assert(ra[0] == '>');
    assert(rb[0] == '>');
    a_requirement_begins_with_its_name("torch"@, ra);
    a_requirement_begins_with_its_name("torchaudio"@, rb);
    assert(torch_specs()[0] == a);
    assert(torch_specs()[1] == b);
    assert(req_name(torch_specs()[0]) == "torch"@);
    assert(req_name(torch_specs()[1]) == "torchaudio"@);
}

/// The sources recorded after an installation: of each one that was installed what it is
/// now, of the others what was recorded; Python only where it is the one wanted.
pub proof fn sources_are_recorded_as_installed(
    recorded: Map<Seq<char>, Seq<char>>,
    installed: Seq<Seq<char>>,
    python_matches: bool,
    k: Seq<char>,
)
    ensures
        python_matches ==> names::at(pins_after(recorded, installed, python_matches), "python"@)
            == Some(PYTHON_URL@),
        !python_matches || k != "python"@ ==> names::at(
            pins_after(recorded, installed, python_matches),
            k,
        ) == (if installed.contains(k) && pins_now().contains_key(k) {
            Some(pins_now()[k])
        } else {
            names::at(recorded, k)
        }),
{
}

/// Versions are asked for of everything that is required and of the three sources, each
/// once.
pub proof fn every_version_is_asked_for_once(i: int)
    ensures
        recorded_names().no_duplicates(),
        0 <= i < all_specs().len() ==> recorded_names().contains(req_name(all_specs()[i])),
        recorded_names().contains("silentcipher"@),
        recorded_names().contains("dacvae"@),
        recorded_names().contains("irodori-tts"@),
{
    let n = all_specs().len() as int;
    let three = seq!["silentcipher"@, "dacvae"@, "irodori-tts"@];
    let more = Seq::new(all_specs().len(), |j: int| req_name(all_specs()[j])) + three;
    new_names_are_added_once(Seq::empty(), more, 0);
    assert(more.skip(0) =~= more);
    assert(more[n] == "silentcipher"@);
    assert(more[n + 1] == "dacvae"@);
    assert(more[n + 2] == "irodori-tts"@);
    assert(more.contains(more[n]));
    assert(more.contains(more[n + 1]));
    assert(more.contains(more[n + 2]));
    if 0 <= i < n {
        assert(more[i] == req_name(all_specs()[i]));
        assert(more.contains(more[i]));
    }
}

} // verus!
