use ugg::install::{
    common_step, expand_command, models_step, no_pth_file, patch_pth, pip_step, ps_single_quoted,
    pth_file, python_step, runtime_steps, torch_step, PipStep, PythonStep,
};

#[test]
fn patch_pth_uncomments_import_site() {
    let input = "python311.zip\n.\n\n# Uncomment to run site.main() automatically\n#import site\n";
    let out = patch_pth(input);
    assert!(out.contains("\nimport site\n"));
    assert!(!out.contains("#import site"));
}

#[test]
fn patch_pth_handles_space_before_site() {
    let input = "python311.zip\n.\n# import site\n";
    let out = patch_pth(input);
    assert!(out.contains("\nimport site\n"));
    assert!(!out.contains("# import site"));
}

#[test]
fn patch_pth_idempotent_when_already_enabled() {
    let input = "python311.zip\n.\nimport site\n";
    let out = patch_pth(input);
    let count = out.matches("\nimport site").count();
    assert_eq!(count, 1);
}

#[test]
fn patch_pth_appends_when_missing() {
    let input = "python311.zip\n.\n";
    let out = patch_pth(input);
    assert!(out.contains("\nimport site\n"));
}

#[test]
fn apostrophe_in_path_is_doubled() {
    let q = ps_single_quoted(r"C:\Users\O'Neil\AppData\Local\ugg");
    assert!(q.contains("O''Neil"), "escape されていない: {q}");
    assert_eq!(q.matches('\'').count() % 2, 0, "引用が閉じない: {q}");
}

#[test]
fn ordinary_path_is_unchanged() {
    assert_eq!(
        ps_single_quoted(r"C:\Users\shiho\AppData\Local\ugg"),
        r"C:\Users\shiho\AppData\Local\ugg"
    );
}

#[test]
fn patching_a_file_twice_changes_nothing_more() {
    for input in ["", "a\r\n#import site\r\nb", "  # import site\n", "x\n\n", "import site"] {
        let once = patch_pth(input);
        assert_eq!(patch_pth(&once), once, "{input:?}");
    }
    assert_eq!(patch_pth("a\r\n #import site"), "a\nimport site\n");
}

#[test]
fn patching_a_file_keeps_its_other_lines() {
    let input = "python312.zip\n.\n\n# Uncomment to run site.main()\n# import site\n #x\n";
    let out = patch_pth(input);
    let others = |s: &str| -> Vec<String> {
        s.lines().filter(|l| !l.trim_start().ends_with("import site")).map(String::from).collect()
    };
    assert_eq!(others(&out), others(input));
    assert!(out.lines().any(|l| l == "import site"));
    assert!(!out.lines().any(|l| l.trim_start().starts_with('#') && l.ends_with("import site")));
}

#[test]
fn a_quoted_path_reads_back() {
    for p in ["'", "''", "a'b''c", "plain"] {
        assert_eq!(ps_single_quoted(p).replace("''", "'"), p);
    }
    assert_eq!(
        expand_command("z'.zip", "d"),
        "Expand-Archive -LiteralPath 'z''.zip' -DestinationPath 'd' -Force"
    );
}

#[test]
fn each_step_is_told_and_run() {
    let common = common_step();
    assert_eq!(common.told, "共通 Python 依存をインストールしています (5 パッケージ)…");
    assert_eq!(common.args.len(), 5);
    let torch = torch_step();
    assert_eq!(torch.args[1], "--index-url");
    assert_eq!(torch.args.len(), 5);
    let steps = runtime_steps();
    assert_eq!(steps.len(), 4);
    assert_eq!(steps[0].args[0], "--upgrade");
    for (step, name) in steps[1..].iter().zip(["silentcipher", "dacvae", "Irodori-TTS"]) {
        assert_eq!(step.args[0], "--no-deps");
        assert!(step.args[1].contains(name), "{step:?}");
    }
}

#[test]
fn what_is_there_is_not_fetched_again() {
    assert_eq!(python_step(true), PythonStep::Placed);
    match python_step(false) {
        PythonStep::Fetch { zip_name, .. } => assert_eq!(zip_name, "python-3.11.9-embed-amd64.zip"),
        other => panic!("{other:?}"),
    }
    assert_eq!(
        pip_step(false, true, "p"),
        PipStep::NoPython("python.exe が見つかりません: p".to_string())
    );
    assert_eq!(pip_step(true, true, "p"), PipStep::Placed);
    assert!(matches!(pip_step(true, false, "p"), PipStep::Bootstrap { .. }));
}

#[test]
fn the_models_of_this_build_are_fetched() {
    let args = models_step(true, true, "p", "s.py", "R").unwrap();
    assert_eq!(args[..4].to_vec(), vec!["s.py", "--asset-dir", "R", "--download-only"]);
    assert_eq!(args[4..].to_vec(), ugg::pins::model_args_for_fetch());
    assert_eq!(
        models_step(false, true, "p", "s.py", "R"),
        Err("python.exe が見つかりません: p".to_string())
    );
    assert_eq!(
        models_step(true, false, "p", "s.py", "R"),
        Err("sidecar.py が配置されていません: s.py".to_string())
    );
}

#[test]
fn the_first_pth_file_is_patched() {
    let names = vec!["a.txt".to_string(), "python311._pth".to_string(), "b._pth".to_string()];
    assert_eq!(pth_file(&names), Some(1));
    assert_eq!(pth_file(&vec![]), None);
    assert_eq!(no_pth_file("D"), "python._pth が D に見つかりません");
}
