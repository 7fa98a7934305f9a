use ugg::names::NameMap;
use ugg::paths::AssetPath;
use ugg::pins::{
    common_requirements, current_models, current_pins, current_requirements,
    installed_python_version, merged_models, merged_pins, merged_requirements,
    model_args_for_fetch, model_args_for_read, models_to_read, needs_torch_index,
    pick_models_to_read, pinned_python_version, python_dir, python_exe, read_stamp,
    record_after_install, record_installed, recorded_distributions, requirement_name, site_of, split_model,
    updatable_pin, v054_baseline_models, v054_baseline_requirements, version_in_url,
    where_models_come_from, write_stamp_pins, InstalledStamp, IRODORI_TTS_ZIPBALL, PYTHON_URL,
    STAMP_SCHEMA,
};
use ugg::status::{outdated_pins, should_ask_python};

fn pins_of(pairs: &[(&str, &str)]) -> NameMap {
    let mut m = NameMap::new();
    for (k, v) in pairs {
        m.insert(k, v);
    }
    m
}

fn get<'a>(m: &'a NameMap, k: &str) -> Option<&'a str> {
    m.get(k).map(String::as_str)
}

fn strings(v: &[&str]) -> Vec<String> {
    v.iter().map(|s| s.to_string()).collect()
}

fn stamp_with_models(models: &[(&str, &str)]) -> InstalledStamp {
    InstalledStamp {
        schema: STAMP_SCHEMA,
        installed_at: 0,
        pins: NameMap::new(),
        resolved: NameMap::new(),
        requirements: NameMap::new(),
        models: pins_of(models),
    }
}

const MODEL_PINS: [(&str, &str, &str); 3] = [
    ("model_synth", "Aratako/Irodori-TTS-500M-v3", "main"),
    ("model_voice_design", "Aratako/Irodori-TTS-500M-v2-VoiceDesign", "main"),
    ("model_codec", "Aratako/Semantic-DACVAE-Japanese-32dim", "main"),
];

#[test]
fn the_read_targets_come_from_the_record_name_by_name() {
    assert_eq!(models_to_read(&None), v054_baseline_models());

    let stamp = stamp_with_models(&[("model_synth", "Aratako/Irodori-TTS-500M-v9@abc123")]);
    let got = models_to_read(&Some(stamp));
    assert_eq!(
        get(&got, "model_synth"),
        Some("Aratako/Irodori-TTS-500M-v9@abc123"),
        "記録の値を読む"
    );
    assert_eq!(
        got.get("model_codec"),
        v054_baseline_models().get("model_codec"),
        "記録に無い名前は基準値へ倒す"
    );
    assert_eq!(got.len(), current_models().len(), "ビルドが求める名前は全部そろう");
}

#[test]
fn the_decision_table_picks_name_by_name() {
    let recorded = pins_of(&[("a", "記録のa")]);
    let baseline = pins_of(&[("a", "基準値のa"), ("b", "基準値のb")]);
    let build = pins_of(&[("a", "ビルドのa"), ("b", "ビルドのb"), ("c", "ビルドのc")]);

    let got = pick_models_to_read(&recorded, &baseline, &build);

    assert_eq!(get(&got, "a"), Some("記録のa"), "記録が最優先");
    assert_eq!(
        get(&got, "b"),
        Some("基準値のb"),
        "**記録があっても、その名前が無ければ基準値**（記録全体を単位にしない）"
    );
    assert_eq!(
        get(&got, "c"),
        Some("ビルドのc"),
        "基準値にも無ければビルド（v0.5.7 でモデルを増やしたとき）"
    );
    assert_eq!(got.len(), 3, "ビルドが求める名前がそろう: {got:?}");

    let none = pick_models_to_read(&NameMap::new(), &baseline, &build);
    assert_eq!(get(&none, "a"), Some("基準値のa"));
    assert_eq!(get(&none, "b"), Some("基準値のb"));
}

#[test]
fn the_source_of_the_read_targets_is_named() {
    assert_eq!(where_models_come_from(&None), "基準値");
    let baseline = v054_baseline_models();
    let names = baseline.names();
    let full: Vec<(&str, &str)> =
        names.iter().map(|n| (n.as_str(), get(&baseline, n).unwrap())).collect();
    assert_eq!(where_models_come_from(&Some(stamp_with_models(&full))), "記録");
    assert_eq!(
        where_models_come_from(&Some(stamp_with_models(&full[..1]))),
        "記録と基準値"
    );
}

#[test]
fn what_is_fetched_and_what_is_read_can_differ() {
    let stamp = write_stamp_pins(
        0,
        NameMap::new(),
        NameMap::new(),
        NameMap::new(),
        pins_of(&[
            ("model_synth", "Aratako/Irodori-TTS-500M-v3@old111"),
            ("model_voice_design", "Aratako/Irodori-TTS-500M-v2-VoiceDesign@main"),
            ("model_codec", "Aratako/Semantic-DACVAE-Japanese-32dim@main"),
        ]),
    );
    let (read, from) = model_args_for_read(&Some(stamp));
    assert_eq!(from, "記録");
    let read = read.join(" ");
    assert!(read.contains("--model-synth-revision old111"), "{read}");
    let fetch = model_args_for_fetch().join(" ");
    assert!(fetch.contains("--model-synth-revision main"), "{fetch}");
    assert_ne!(read, fetch, "記録が古ければ読み先と取得先は違う");
}

#[test]
fn resolved_can_differ_from_the_requested_pin() {
    let stamp = write_stamp_pins(
        0,
        current_pins(),
        pins_of(&[("huggingface_hub", "0.36.2")]),
        current_requirements(),
        current_models(),
    );
    let got = read_stamp(Some(stamp)).unwrap();
    assert!(
        common_requirements().iter().any(|r| *r == "huggingface_hub==0.27.0"),
        "前提: 指定は 0.27.0"
    );
    assert_eq!(get(&got.resolved, "huggingface_hub"), Some("0.36.2"), "実測値をそのまま残すこと");
}

#[test]
fn unknown_schema_is_treated_as_no_record() {
    let mut stamp = stamp_with_models(&[]);
    stamp.schema = 999;
    assert!(read_stamp(Some(stamp)).is_none());
    assert!(read_stamp(None).is_none());
}

#[test]
fn requirement_name_strips_specifiers() {
    assert_eq!(requirement_name("torch>=2.10.0,<2.11.0"), "torch");
    assert_eq!(requirement_name("uvicorn[standard]==0.32.1"), "uvicorn");
    assert_eq!(requirement_name("numpy<2"), "numpy");
    assert_eq!(requirement_name("einops"), "einops");
    assert_eq!(requirement_name("descript-audiotools>=0.7.2"), "descript-audiotools");
}

#[test]
fn recorded_distributions_cover_everything_we_install() {
    let names = recorded_distributions();
    for expected in ["torch", "transformers", "huggingface_hub", "fastapi", "numpy"] {
        assert!(names.iter().any(|n| n == expected), "{expected} が記録対象に無い");
    }
    for git in ["silentcipher", "dacvae", "irodori-tts"] {
        assert!(names.iter().any(|n| n == git), "{git} が記録対象に無い");
    }
    let mut sorted = names.clone();
    sorted.sort();
    sorted.dedup();
    assert_eq!(sorted.len(), names.len(), "重複がある: {names:?}");
}

#[test]
fn pinned_python_version_comes_from_the_url() {
    assert_eq!(pinned_python_version().as_deref(), Some("3.11.9"));
    assert!(PYTHON_URL.contains("python-3.11.9-embed-amd64.zip"), "前提が変わったら上も直す");
    assert_eq!(version_in_url("https://x/y/nothing.zip"), None);
}

#[test]
fn the_install_path_does_not_claim_an_unverified_python() {
    let pins = record_installed(&None, &NameMap::new(), &None, 0).pins;
    assert!(
        !pins.contains_key("python"),
        "確かめられていない python を記録してはいけない: {pins:?}"
    );
    for pkg in ["dacvae", "irodori_tts", "silentcipher"] {
        assert_eq!(pins.get(pkg), current_pins().get(pkg), "{pkg} は記録すること");
    }
    assert!(
        should_ask_python(&pins),
        "記録していないのだから、次回は実物に聞きにいくこと"
    );
}

#[test]
fn the_install_path_records_every_requirement_and_model() {
    let stamp = record_installed(&None, &NameMap::new(), &None, 0);
    assert_eq!(stamp.requirements, current_requirements(), "要件を全部記録する");
    assert_eq!(stamp.models, current_models(), "モデルを全部記録する");
}

#[test]
fn only_updated_pins_are_recorded() {
    let updated = strings(&["dacvae"]);
    let pins = merged_pins(&NameMap::new(), &updated, false);
    assert_eq!(pins.len(), 1, "入れ直した 1 本だけ: {pins:?}");
    assert_eq!(pins.get("dacvae"), current_pins().get("dacvae"));
    assert!(!pins.contains_key("python"), "確認していない python を書かない");
    assert!(!pins.contains_key("irodori_tts"), "入れ直していないものを書かない");

    let pins = merged_pins(&NameMap::new(), &updated, true);
    assert_eq!(pins.get("python"), current_pins().get("python"));

    let all = strings(&["dacvae", "irodori_tts", "silentcipher"]);
    let pins = merged_pins(&NameMap::new(), &all, true);
    assert!(
        outdated_pins(&pins, &current_pins()).is_empty(),
        "全部入れ直したら最新になること: {pins:?}"
    );
}

#[test]
fn only_updated_requirements_are_recorded() {
    let updated = strings(&["transformers"]);
    let reqs = merged_requirements(&NameMap::new(), &updated);
    assert_eq!(reqs.len(), 1, "入れ直した 1 本だけ: {reqs:?}");
    assert_eq!(reqs.get("transformers"), current_requirements().get("transformers"));
    assert!(
        !reqs.contains_key("huggingface_hub"),
        "入れ直していないものを書かない: {reqs:?}"
    );

    let recorded = pins_of(&[("numpy", "numpy<1")]);
    let reqs = merged_requirements(&recorded, &updated);
    assert_eq!(get(&reqs, "numpy"), Some("numpy<1"), "触っていない記録を書き換えない: {reqs:?}");
}

#[test]
fn torch_is_reinstalled_from_the_cuda_index() {
    assert!(needs_torch_index("torch"), "torch は CUDA index が要る");
    assert!(needs_torch_index("torchaudio"), "torchaudio も同じ index");
    for other in ["transformers", "huggingface_hub", "numpy", "torchcodec"] {
        assert!(!needs_torch_index(other), "{other} に CUDA index を付けると取得先を誤る");
    }
}

#[test]
fn the_frozen_baseline_was_copied_correctly() {
    assert_eq!(v054_baseline_requirements(), current_requirements());
    assert_eq!(v054_baseline_models(), current_models());
}

#[test]
fn model_args_cover_every_pin() {
    let args = model_args_for_fetch();
    for (_, repo, rev) in MODEL_PINS {
        assert!(args.iter().any(|a| a == repo), "{repo} を渡していない: {args:?}");
        assert!(args.iter().any(|a| a == rev), "{repo} の revision を渡していない");
    }
    assert_eq!(args.len(), MODEL_PINS.len() * 4, "フラグと値の対が崩れている: {args:?}");
    for flag in ["--model-synth", "--model-voice-design", "--model-codec"] {
        assert!(args.iter().any(|a| a == flag), "{flag} が無い");
        assert!(
            args.iter().any(|a| a == &format!("{flag}-revision")),
            "{flag}-revision が無い"
        );
    }
}

#[test]
fn only_updated_models_are_recorded() {
    let updated = strings(&["model_synth"]);
    let got = merged_models(&NameMap::new(), &updated);
    assert_eq!(got.len(), 1, "入れ直した 1 本だけ: {got:?}");
    assert_eq!(got.get("model_synth"), current_models().get("model_synth"));
    assert!(!got.contains_key("model_codec"), "触っていないものを書かない");
}

#[test]
fn the_two_requirement_lists_stay_in_sync() {
    let reqs = current_requirements();
    let recorded = recorded_distributions();
    let git_only = ["silentcipher", "dacvae", "irodori-tts"];

    for name in &reqs.names() {
        assert!(
            recorded.iter().any(|n| n == name),
            "{name} が recorded_distributions に無い（実際に入った版が記録されない）"
        );
    }
    for name in &recorded {
        if git_only.contains(&name.as_str()) {
            continue;
        }
        assert!(
            reqs.contains_key(name),
            "{name} が current_requirements に無い（更新判定に乗らず永久に届かない）"
        );
    }
}

#[test]
fn pins_cover_every_pinned_url() {
    let pins = current_pins();
    assert_eq!(pins.len(), 4, "pin を増減したらここも更新する: {pins:?}");
    let urls: Vec<String> = pins.names().iter().map(|n| pins.get(n).unwrap().clone()).collect();
    for url in &urls {
        assert!(url.starts_with("https://"), "URL でない: {url}");
    }
    assert!(urls.iter().any(|u| u == IRODORI_TTS_ZIPBALL));
}

#[test]
fn python_is_not_updatable_in_place() {
    assert!(updatable_pin("python").is_none());
    for name in ["silentcipher", "dacvae", "irodori_tts"] {
        assert!(updatable_pin(name).is_some(), "{name} は入れ直せるはず");
    }
    let updatable =
        current_pins().names().iter().filter(|n| updatable_pin(n).is_some()).count();
    assert_eq!(updatable, 3, "pin を増やしたら updatable_pin にも足すこと");
}

#[test]
fn runtime_modules_cover_every_updatable_pin() {
    for name in &current_pins().names() {
        if let Some((pkg, _)) = updatable_pin(name) {
            assert!(
                ugg::versions::runtime_modules().contains(&pkg),
                "{pkg} を入れ直すのに import の見張りが無い"
            );
        }
    }
}

#[test]
fn python_says_its_version_in_its_own_words() {
    let lines = strings(&["noise", "Python 3.11.9"]);
    assert_eq!(installed_python_version(true, &lines).as_deref(), Some("3.11.9"));
    assert_eq!(installed_python_version(false, &lines), None);
    assert_eq!(installed_python_version(true, &strings(&["noise"])), None);
}

#[test]
fn a_model_without_a_revision_is_that_of_the_main_branch() {
    assert_eq!(split_model("a/b@c"), ("a/b".to_string(), "c".to_string()));
    assert_eq!(split_model("a@b@c"), ("a@b".to_string(), "c".to_string()));
}

#[test]
fn everything_lies_below_the_root() {
    let root = AssetPath::new("R");
    assert_eq!(python_dir(&root).parts, vec!["python"]);
    assert_eq!(python_exe(&root).parts, vec!["python", "python.exe"]);
    assert_eq!(site_of(&root).parts, vec!["python", "Lib", "site-packages"]);
    assert_eq!(ugg::pins::stamp_path(&root).parts, vec!["installed.json"]);
}

#[test]
fn what_is_read_catches_up_once_it_was_installed() {
    let old = Some(stamp_with_models(&[
        ("model_synth", "Aratako/Irodori-TTS-500M-v3@old111"),
        ("model_codec", "Aratako/Semantic-DACVAE-Japanese-32dim@old222"),
    ]));
    assert_ne!(model_args_for_read(&old).0, model_args_for_fetch());
    let part = record_after_install(&old, &strings(&["model_synth"]), &NameMap::new(), &None, 1);
    let read = model_args_for_read(&Some(part)).0.join(" ");
    assert!(read.contains("--model-synth-revision main"), "{read}");
    assert!(read.contains("--model-codec-revision old222"), "{read}");
    let all = strings(&["model_synth", "model_codec", "model_voice_design"]);
    let whole = record_after_install(&old, &all, &NameMap::new(), &None, 1);
    assert_eq!(model_args_for_read(&Some(whole)), (model_args_for_fetch(), "記録"));
}
