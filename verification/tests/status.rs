use ugg::names::NameMap;
use ugg::pins::{
    current_models, current_pins, current_requirements, v054_baseline_models,
    v054_baseline_requirements, write_stamp_pins,
};
use ugg::status::{
    assets_ready, backfill_baseline, baseline_filled, has_package, outdated_list, outdated_pins,
    outdated_section, python_is_stale, should_ask_python, status, SiteListing,
};

fn pins_of(pairs: &[(&str, &str)]) -> NameMap {
    let mut m = NameMap::new();
    for (k, v) in pairs {
        m.insert(k, v);
    }
    m
}

fn some(s: &str) -> Option<String> {
    Some(s.to_string())
}

fn strings(v: &[&str]) -> Vec<String> {
    v.iter().map(|s| s.to_string()).collect()
}

fn full_site() -> SiteListing {
    let all = strings(&["torch", "fastapi", "uvicorn", "huggingface_hub", "irodori_tts"]);
    SiteListing { dirs: all.clone(), files: vec![], entries: all }
}

#[test]
fn no_record_is_not_up_to_date() {
    let st = status(false, &None, &None);
    assert!(!st.has_record, "記録が無いこと");
    assert!(!st.up_to_date, "分からないものを最新とは言わない");
}

#[test]
fn present_does_not_depend_on_being_up_to_date() {
    let st = status(assets_ready(true, &Some(full_site())), &None, &None);
    assert!(st.present, "揃っているなら使える");
    assert!(!st.up_to_date, "記録が無いので最新とは言えない");
}

#[test]
fn outdated_pins_names_what_changed() {
    let recorded = pins_of(&[("python", "PY-1"), ("irodori_tts", "IR-1")]);
    let same = pins_of(&[("python", "PY-1"), ("irodori_tts", "IR-1")]);
    assert!(outdated_pins(&recorded, &same).is_empty());

    let bumped = pins_of(&[("python", "PY-1"), ("irodori_tts", "IR-2")]);
    assert_eq!(outdated_pins(&recorded, &bumped), ["irodori_tts"]);

    let added = pins_of(&[("python", "PY-1"), ("irodori_tts", "IR-1"), ("newdep", "N-1")]);
    assert_eq!(outdated_pins(&recorded, &added), ["newdep"]);

    let removed = pins_of(&[("python", "PY-1")]);
    assert!(outdated_pins(&recorded, &removed).is_empty());
}

#[test]
fn stamp_round_trips() {
    let resolved = pins_of(&[("transformers", "4.57.6"), ("huggingface_hub", "0.36.2")]);
    let got = write_stamp_pins(
        0,
        current_pins(),
        resolved,
        current_requirements(),
        current_models(),
    );
    assert_eq!(got.pins, current_pins(), "要求した pin をそのまま記録する");
    assert_eq!(got.resolved.get("huggingface_hub").map(String::as_str), Some("0.36.2"));
    assert!(status(false, &Some(got), &None).up_to_date, "書いた直後は最新");
}

#[test]
fn a_missing_record_does_not_accuse_python() {
    let st = status(assets_ready(true, &Some(full_site())), &None, &None);
    assert!(st.present && !st.has_record && !st.up_to_date, "前提: 古い導入");
    assert!(
        !st.outdated.iter().any(|n| n == "python"),
        "聞けなかった python を対象に混ぜてはいけない: {:?}",
        st.outdated
    );
    for pkg in ["silentcipher", "dacvae", "irodori_tts"] {
        assert!(
            st.outdated.iter().any(|n| n == pkg),
            "{pkg} が入れ直しの対象から漏れている: {:?}",
            st.outdated
        );
    }
}

#[test]
fn python_staleness_needs_evidence() {
    assert!(!python_is_stale(&some("3.11.9"), &some("3.11.9")), "一致なら古くない");
    assert!(python_is_stale(&some("3.11.8"), &some("3.11.9")), "違えば古い");
    assert!(!python_is_stale(&None, &some("3.11.9")), "聞けないなら古いと言わない");
    assert!(!python_is_stale(&some("3.11.9"), &None), "pin を読めないなら古いと言わない");
}

#[test]
fn changing_a_named_requirement_makes_it_outdated() {
    let pins = current_pins();
    let mut reqs = current_requirements();
    assert!(
        outdated_list(&pins, &reqs, &current_models(), &None).is_empty(),
        "全部一致なら空"
    );
    assert_eq!(
        current_requirements().get("transformers").map(String::as_str),
        Some("transformers<5"),
        "前提が変わったらこのテストも直す"
    );
    reqs.insert("transformers", "transformers<4");
    let got = outdated_list(&pins, &reqs, &current_models(), &None);
    assert!(
        got.iter().any(|n| n == "transformers"),
        "要件の変更が対象に入らないと、永久に届かない: {got:?}"
    );
}

#[test]
fn a_missing_record_does_not_accuse_requirements_or_models() {
    let got = outdated_list(&NameMap::new(), &NameMap::new(), &NameMap::new(), &None);
    for name in ["transformers", "huggingface_hub", "torch"] {
        assert!(
            !got.iter().any(|n| n == name),
            "{name} を数 GB かけて入れ直す理由が無い: {got:?}"
        );
    }
    for name in ["model_synth", "model_codec"] {
        assert!(!got.iter().any(|n| n == name), "{name} も同じ: {got:?}");
    }
    for pkg in ["dacvae", "irodori_tts", "silentcipher"] {
        assert!(got.iter().any(|n| n == pkg), "{pkg} は対象のまま: {got:?}");
    }
}

#[test]
fn an_old_record_gets_a_baseline_written_in() {
    let before = write_stamp_pins(
        0,
        current_pins(),
        NameMap::new(),
        NameMap::new(),
        NameMap::new(),
    );
    assert!(before.requirements.is_empty() && before.models.is_empty(), "前提");

    let (after, changed) = backfill_baseline(&before);
    assert!(changed, "保存されること");
    assert_eq!(after.requirements, v054_baseline_requirements(), "要件の基準値が入る");
    assert_eq!(after.models, v054_baseline_models(), "モデルの基準値が入る");
    assert!(!backfill_baseline(&after).1, "次は書かない");

    let mut reqs = after.requirements.copy();
    reqs.insert("transformers", "transformers<4");
    let got = outdated_list(&after.pins, &reqs, &after.models, &None);
    assert_eq!(got, ["transformers"], "変えた 1 本だけ: {got:?}");
}

#[test]
fn an_empty_section_is_read_as_the_frozen_baseline() {
    let baseline = pins_of(&[("transformers", "transformers<5")]);
    let current = pins_of(&[("transformers", "transformers>=5")]);
    assert_eq!(
        outdated_section(&NameMap::new(), &baseline, &current),
        ["transformers"],
        "欄が空でも、当時の版といまの要求が違えば届ける"
    );
    assert!(
        outdated_section(&NameMap::new(), &current, &current).is_empty(),
        "当時の版のままでよければ何もしない（数 GB の再取得を強いない）"
    );
}

#[test]
fn a_requirement_added_later_is_delivered() {
    let recorded = pins_of(&[("transformers", "transformers<5")]);
    let current = pins_of(&[("transformers", "transformers<5"), ("newdep", "newdep>=1")]);
    assert_eq!(outdated_section(&recorded, &recorded, &current), ["newdep"]);
}

#[test]
fn the_baseline_fills_only_an_empty_section_with_the_frozen_values() {
    let baseline_reqs = pins_of(&[("transformers", "transformers<5")]);
    let baseline_models = pins_of(&[("model_synth", "old@main")]);

    let empty = write_stamp_pins(
        0,
        current_pins(),
        NameMap::new(),
        NameMap::new(),
        NameMap::new(),
    );
    let filled = baseline_filled(&empty, &baseline_reqs, &baseline_models);
    assert_eq!(filled.requirements, baseline_reqs, "渡された基準値で埋める");
    assert_eq!(filled.models, baseline_models);

    let recorded = pins_of(&[("transformers", "transformers>=5")]);
    let full = write_stamp_pins(
        0,
        current_pins(),
        NameMap::new(),
        recorded.copy(),
        current_models(),
    );
    let untouched = baseline_filled(&full, &baseline_reqs, &baseline_models);
    assert_eq!(untouched.requirements, recorded, "埋まっている欄は書き換えない");
    assert_eq!(untouched.models, current_models());
}

#[test]
fn a_matching_record_means_python_need_not_be_asked() {
    assert!(!should_ask_python(&current_pins()), "一致している記録は信じる");
    assert!(should_ask_python(&NameMap::new()), "記録が無ければ実物に聞く");
    let mut other = current_pins();
    other.insert("python", "OLD");
    assert!(should_ask_python(&other), "記録が違えば実物に聞く");
}

#[test]
fn outdated_list_names_only_what_changed() {
    let mut recorded = current_pins();
    assert!(
        outdated_list(&recorded, &current_requirements(), &current_models(), &None).is_empty(),
        "全部一致なら空"
    );
    recorded.insert("irodori_tts", "OLD");
    assert_eq!(
        outdated_list(&recorded, &current_requirements(), &current_models(), &None),
        ["irodori_tts"]
    );
}

#[test]
fn changing_a_model_makes_it_outdated() {
    let mut models = current_models();
    assert!(
        outdated_list(&current_pins(), &current_requirements(), &models, &None).is_empty(),
        "全部一致なら空"
    );
    let old = models.get("model_synth").cloned().unwrap();
    models.insert("model_synth", &format!("{old}-old"));
    let got = outdated_list(&current_pins(), &current_requirements(), &models, &None);
    assert_eq!(got, ["model_synth"], "モデルの変更が対象に入らないと届かない");
}

#[test]
fn assets_ready_false_when_python_missing() {
    assert!(!assets_ready(false, &Some(full_site())));
    assert!(!assets_ready(true, &None));
}

#[test]
fn status_writes_the_baseline_into_an_old_record() {
    let stamp = write_stamp_pins(
        0,
        current_pins(),
        NameMap::new(),
        NameMap::new(),
        NameMap::new(),
    );
    let st = status(true, &Some(stamp), &None);
    assert!(st.has_record, "前提: 記録はある");
    assert!(st.up_to_date, "基準値で読む: {:?}", st.outdated);
}

#[test]
fn a_package_is_there_as_a_directory_a_module_or_metadata() {
    let site = SiteListing {
        dirs: strings(&["torch"]),
        files: strings(&["six.py"]),
        entries: strings(&["torch", "six.py", "numpy-1.26.4.dist-info"]),
    };
    assert!(has_package(&site, "torch"));
    assert!(has_package(&site, "six"));
    assert!(has_package(&site, "numpy"));
    assert!(!has_package(&site, "nump"));
    assert!(has_package(&site, "Torch"), "ファイルシステムは大文字小文字を区別しない");
    assert!(has_package(&site, "SIX"));
    assert!(!has_package(&site, "NumPy"), "dist-info は名前どおりに見る");
}

#[test]
fn a_python_that_differs_from_the_pin_is_named() {
    let st = status(true, &None, &some("3.11.8"));
    assert!(st.outdated.iter().any(|n| n == "python"), "{:?}", st.outdated);
}
