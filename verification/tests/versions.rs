use ugg::names::NameMap;
use ugg::pins::updatable_pin;
use ugg::versions::{
    added_since, cuda_torch_replaced, import_code, import_regressions, import_report, left_behind,
    normalize_dist_name, parse_all_versions_line, parse_resolved_line, read_versions_snapshot,
    resolved_versions_script, runtime_modules, split_by_index, torch_constraints, versions_in,
    versions_to_restore, write_versions_snapshot, ImportCheck, ALL_VERSIONS_MARKER,
    ALL_VERSIONS_SCRIPT, VERSIONS_MARKER, VERSIONS_SNAPSHOT_FILE,
};

fn map(pairs: &[(&str, &str)]) -> NameMap {
    let mut m = NameMap::new();
    for (k, v) in pairs {
        m.insert(k, v);
    }
    m
}

fn report(pairs: &[(&str, Option<&str>)]) -> Vec<ImportCheck> {
    let mut checks: Vec<ImportCheck> = pairs
        .iter()
        .map(|(m, e)| ImportCheck {
            module: m.to_string(),
            failure: e.map(|x| x.to_string()),
        })
        .collect();
    checks.sort_by(|a, b| a.module.cmp(&b.module));
    checks
}

#[test]
fn resolved_line_is_parsed() {
    let line = format!("{VERSIONS_MARKER}{{\"torch\":\"2.10.0+cu128\"}}");
    let got = parse_resolved_line(&line).expect("読めること");
    assert_eq!(got.get("torch").map(String::as_str), Some("2.10.0+cu128"));
    assert!(parse_resolved_line("pip install ...").is_none(), "無関係な行は拾わない");
}

#[test]
fn only_a_regression_blocks_the_update() {
    let before = report(&[
        ("irodori_tts", None),
        ("dacvae", None),
        ("silentcipher", Some("ModuleNotFoundError: No module named 'pydub'")),
    ]);

    assert!(
        import_regressions(&before, &before).is_empty(),
        "前から import できないものを理由に巻き戻してはいけない"
    );

    let fixed = report(&[("irodori_tts", None), ("dacvae", None), ("silentcipher", None)]);
    assert!(import_regressions(&before, &fixed).is_empty());

    let broken = report(&[
        ("irodori_tts", Some("ImportError: bad")),
        ("dacvae", None),
        ("silentcipher", Some("ModuleNotFoundError: No module named 'pydub'")),
    ]);
    let got = import_regressions(&before, &broken);
    assert_eq!(got.len(), 1, "壊れたのは 1 つ: {got:?}");
    assert!(got[0].starts_with("irodori_tts: "), "どれが壊れたか: {got:?}");
    assert!(got[0].contains("ImportError: bad"), "理由を落とさない: {got:?}");

    let gone = report(&[("dacvae", None), ("silentcipher", None)]);
    assert_eq!(import_regressions(&before, &gone), ["irodori_tts"]);
}

#[test]
fn distribution_names_are_normalized() {
    assert_eq!(normalize_dist_name("Huggingface_Hub"), "huggingface-hub");
    assert_eq!(normalize_dist_name("irodori_tts"), "irodori-tts");
    assert_eq!(normalize_dist_name("ruamel.yaml"), "ruamel-yaml");
    assert_eq!(normalize_dist_name("a.-_b"), "a-b");
    assert_eq!(normalize_dist_name("torch"), "torch");
    assert_eq!(normalize_dist_name("ÄÖ_İ"), "äö-i\u{307}");
}

#[test]
fn normalizing_a_name_again_changes_nothing() {
    for (name, normal) in [
        ("Flask__SQL--Alchemy.x", "flask-sql-alchemy-x"),
        ("_leading.and.trailing_", "leading-and-trailing"),
        ("---", ""),
        ("a", "a"),
    ] {
        assert_eq!(normalize_dist_name(name), normal);
        assert_eq!(normalize_dist_name(normal), normal);
    }
}

#[test]
fn a_report_pairs_the_modules_with_their_failures() {
    let modules = runtime_modules();
    let mut sorted = modules.clone();
    sorted.sort();
    sorted.dedup();
    assert_eq!(modules, sorted);
    let got = import_report(vec![None, Some("ImportError: bad".to_string()), None]);
    assert_eq!(
        got,
        report(&[
            ("silentcipher", None),
            ("irodori_tts", Some("ImportError: bad")),
            ("dacvae", None),
        ])
    );
    assert_eq!(
        import_regressions(&import_report(vec![None, None, None]), &got),
        ["irodori_tts: ImportError: bad"]
    );
}

#[test]
fn the_all_versions_line_is_parsed_with_normalized_names() {
    let line = format!(
        "{ALL_VERSIONS_MARKER}{{\"Huggingface_Hub\":\"0.36.2\",\"torch\":\"2.10.0+cu128\"}}"
    );
    let got = parse_all_versions_line(&line).expect("読めること");
    assert_eq!(got.get("huggingface-hub").map(String::as_str), Some("0.36.2"));
    assert_eq!(got.get("torch").map(String::as_str), Some("2.10.0+cu128"));
    assert!(parse_all_versions_line("Collecting torch").is_none());
    assert!(parse_all_versions_line(&format!("{VERSIONS_MARKER}{{}}")).is_none());
}

#[test]
fn only_changed_or_missing_distributions_are_restored() {
    let before = map(&[
        ("transformers", "4.57.6"),
        ("tokenizers", "0.22.1"),
        ("numpy", "1.26.4"),
        ("dacvae", "0.1.0"),
        ("irodori-tts", "0.1.0"),
    ]);
    let after = map(&[
        ("transformers", "5.0.0"),
        ("numpy", "1.26.4"),
        ("dacvae", "0.2.0"),
        ("irodori-tts", "0.2.0"),
        ("hf-xet", "1.0.0"),
    ]);
    assert_eq!(
        versions_to_restore(&before, &after),
        [
            ("tokenizers".to_string(), "0.22.1".to_string()),
            ("transformers".to_string(), "4.57.6".to_string()),
        ],
        "固定 URL の 3 本・変わっていないもの・増えたものは含めない"
    );
    assert_eq!(added_since(&before, &after), ["hf-xet"]);
}

#[test]
fn the_pinned_distributions_are_the_updatable_pins() {
    for name in ["silentcipher", "dacvae", "irodori_tts"] {
        assert!(updatable_pin(name).is_some(), "{name} は固定 URL の 1 本");
        let normal = normalize_dist_name(name);
        let before = map(&[(normal.as_str(), "0.1.0")]);
        assert!(
            versions_to_restore(&before, &NameMap::new()).is_empty(),
            "{name} を版指定の入れ直しから外していない"
        );
    }
}

#[test]
fn a_rollback_splits_torch_from_the_rest() {
    let (torch, other) = split_by_index(&vec![
        ("torch".to_string(), "2.10.0+cu128".to_string()),
        ("transformers".to_string(), "4.57.6".to_string()),
        ("torchaudio".to_string(), "2.10.0+cu128".to_string()),
    ]);
    assert_eq!(torch, ["torch==2.10.0+cu128", "torchaudio==2.10.0+cu128"]);
    assert_eq!(other, ["transformers==4.57.6"]);
}

#[test]
fn a_cuda_torch_replaced_by_the_cpu_build_is_caught() {
    let cuda = map(&[("torch", "2.10.0+cu128")]);
    assert!(cuda_torch_replaced(&cuda, &map(&[("torch", "2.10.0")])).is_some(), "CPU 版へ");
    assert!(cuda_torch_replaced(&cuda, &map(&[])).is_some(), "消えた");
    assert!(cuda_torch_replaced(&cuda, &map(&[("torch", "2.10.1+cu128")])).is_none());
    let cpu = map(&[("torch", "2.10.0")]);
    assert!(cuda_torch_replaced(&cpu, &map(&[("torch", "2.10.0")])).is_none(), "元から CPU 版");
}

#[test]
fn other_requirements_are_installed_with_torch_pinned() {
    let got = torch_constraints(&map(&[
        ("torch", "2.10.0+cu128"),
        ("torchaudio", "2.10.0+cu128"),
        ("transformers", "4.57.6"),
    ]));
    assert_eq!(got, ["torch==2.10.0+cu128", "torchaudio==2.10.0+cu128"]);
    assert!(torch_constraints(&map(&[("numpy", "1.26.4")])).is_empty());
}

#[test]
fn the_version_snapshot_round_trips() {
    let versions = map(&[("torch", "2.10.0+cu128"), ("numpy", "1.26.4"), ("\"q\\\n", "あ\u{1}")]);
    let note = write_versions_snapshot(&versions).unwrap();
    assert_eq!(read_versions_snapshot(&note), Some(versions));
    assert_eq!(read_versions_snapshot("{"), None);
    assert_eq!(read_versions_snapshot("{\"a\":1}"), None);
    assert_eq!(VERSIONS_SNAPSHOT_FILE, "update-versions.json");
}

#[test]
fn the_last_report_of_the_versions_counts() {
    let lines: Vec<String> = vec![
        "noise".to_string(),
        format!("{ALL_VERSIONS_MARKER}{{\"A_b\":\"1\"}}"),
        format!("{ALL_VERSIONS_MARKER}{{\"A_b\":\"2\"}}"),
        "more".to_string(),
    ];
    assert_eq!(versions_in(&lines, true), Some(map(&[("a-b", "2")])));
    assert_eq!(versions_in(&lines, false), None);
}

#[test]
fn what_is_left_behind_is_named_with_what_is_there() {
    let before = map(&[("a", "1"), ("b", "2"), ("c", "3")]);
    let now = map(&[("a", "9"), ("c", "3")]);
    assert_eq!(
        left_behind(&before, &now),
        ["a==1（いまは 9）", "b==2（いまは入っていない）"]
    );
    assert!(left_behind(&before, &before).is_empty());
}

#[test]
fn python_is_asked_for_every_recorded_name() {
    let script = resolved_versions_script();
    assert!(script.starts_with("import json,importlib.metadata as m\nout={}\nfor n in [\"fastapi\", "));
    assert!(script.ends_with(
        ":\n    try: out[n]=m.version(n)\n    except Exception: pass\nprint(\"UGG_RESOLVED_VERSIONS \"+json.dumps(out,sort_keys=True))"
    ));
    for name in ugg::pins::recorded_distributions() {
        assert!(script.contains(&format!("\"{name}\"")), "{name}");
    }
    assert!(ALL_VERSIONS_SCRIPT.contains(&format!("{ALL_VERSIONS_MARKER:?}")));
    assert_eq!(import_code("dacvae"), "import dacvae");
}
