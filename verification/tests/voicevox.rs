use ugg::child_process::{Ended, Stream};
use ugg::download::{
    downloader_args, downloader_path, is_locked_candidate, stash_target, token_for,
    DownloaderOutput, RATE_LIMITED,
};
use ugg::paths::AssetPath;
use ugg::voicevox::{
    assets_ready, check, collect_files, engine_files, find_file, metas_json, openjtalk_analyze,
    synthesize, Asset, Init, InitEnd, InitStage, Node,
};

fn file(path: &str) -> Node {
    let name = path.rsplit('/').next().unwrap().to_string();
    Node {
        path: path.to_string(),
        name: Some(name),
        is_file: true,
        is_dir: false,
        entries: vec![],
    }
}

fn dir(path: &str, entries: Vec<Node>) -> Node {
    let name = path.rsplit('/').next().unwrap().to_string();
    Node { path: path.to_string(), name: Some(name), is_file: false, is_dir: true, entries }
}

fn complete() -> Vec<Node> {
    vec![
        dir("c_api", vec![dir("c_api/lib", vec![file("c_api/lib/Voicevox_Core.DLL")])]),
        dir("onnxruntime", vec![file("onnxruntime/voicevox_onnxruntime.dll")]),
        dir("dict", vec![dir("dict/open_jtalk_dic_utf_8-1.11", vec![])]),
        dir("models", vec![file("models/0.vvm"), file("models/1.VVM")]),
    ]
}

#[test]
fn all_four_kinds_of_files_are_needed() {
    assert!(assets_ready(true, &complete()));
    assert!(!assets_ready(false, &complete()));
    for k in 0..4 {
        let mut nodes = complete();
        nodes.remove(k);
        assert!(!assets_ready(true, &nodes), "without {k}");
    }
}

#[test]
fn files_are_found_in_order_and_to_a_depth() {
    assert_eq!(
        collect_files(&complete(), Asset::Voice),
        vec!["models/0.vvm", "models/1.VVM"]
    );
    assert_eq!(
        find_file(&complete(), Asset::Core).as_deref(),
        Some("c_api/lib/Voicevox_Core.DLL")
    );
    let mut deep = file("deep/0.vvm");
    for _ in 0..8 {
        deep = dir("d", vec![deep]);
    }
    assert_eq!(collect_files(&vec![deep], Asset::Voice).len(), 1, "eight levels down");
    let mut deeper = file("deep/0.vvm");
    for _ in 0..9 {
        deeper = dir("d", vec![deeper]);
    }
    assert_eq!(collect_files(&vec![deeper], Asset::Voice).len(), 0, "nine levels down");
}

#[test]
fn a_directory_is_no_file_and_a_file_no_dictionary() {
    let nodes = vec![dir("x.vvm", vec![]), file("open_jtalk_dic")];
    assert!(collect_files(&nodes, Asset::Voice).is_empty());
    assert_eq!(find_file(&nodes, Asset::Dictionary), None);
}

fn init(nodes: &Vec<Node>, codes: &[i32]) -> Init {
    let mut i = Init::new(&engine_files(true, "D", nodes).unwrap());
    for c in codes {
        i.step(*c);
    }
    i
}

#[test]
fn the_core_starts_with_whatever_voices_load() {
    let i = init(&complete(), &[0, 0, 0, 5, 0]);
    assert_eq!(i.stage, InitStage::Done(InitEnd::Ready));
    assert_eq!(i.loaded, 1);
    let none = init(&complete(), &[0, 0, 0, 5, 5]);
    assert_eq!(none.stage, InitStage::Done(InitEnd::NoVoice));
    assert_eq!(InitEnd::NoVoice.cleanup(), (true, true));
    assert_eq!(
        InitEnd::NoVoice.message().as_deref(),
        Some("音声モデル (.vvm) を 1 つも読み込めませんでした")
    );
}

#[test]
fn each_failed_call_is_told_in_its_own_words() {
    let failed = |codes: &[i32]| match init(&complete(), codes).stage {
        InitStage::Done(end) => end.message().unwrap(),
        other => panic!("{other:?}"),
    };
    assert_eq!(failed(&[-3]), "ONNX Runtime のロードに失敗しました (voicevox コード -3)");
    assert_eq!(failed(&[0, 2]), "Open JTalk 辞書の読み込みに失敗しました (voicevox コード 2)");
    assert_eq!(failed(&[0, 0, 9]), "Synthesizer の生成に失敗 (コード 9)");
    assert_eq!(InitEnd::SynthesizerFailed(9).cleanup(), (false, true));
    assert_eq!(InitEnd::RuntimeFailed(9).cleanup(), (false, false));
    let mut without = complete();
    without.remove(2);
    assert_eq!(
        init(&without, &[0]).stage,
        InitStage::Done(InitEnd::DictionaryMissing),
        "told only once the runtime was loaded"
    );
    assert_eq!(InitEnd::Ready.message(), None);
    assert_eq!(check(0, "x"), Ok(()));
    assert_eq!(
        engine_files(false, "D", &vec![]),
        Err("voicevox 資産ディレクトリがありません: D".to_string())
    );
    assert_eq!(
        engine_files(true, "D", &vec![]),
        Err("voicevox_core.dll が見つかりません (資産ダウンロードを実行してください)".to_string())
    );
}

#[test]
fn a_failed_download_is_told_with_its_reason() {
    let mut out = DownloaderOutput::new();
    assert!(!out.on_line(Stream::Stdout, "Error: not looked at"));
    assert!(out.on_line(Stream::Stderr, "downloading"));
    assert_eq!(out.finish(Ended::Exited, Some(0)), None);
    assert_eq!(
        out.finish(Ended::Exited, Some(3)).as_deref(),
        Some("ダウンローダが異常終了しました (コード Some(3))")
    );
    out.on_line(Stream::Stderr, "Error: first");
    out.on_line(Stream::Stderr, "Error: second");
    assert_eq!(out.finish(Ended::Exited, Some(1)).as_deref(), Some("Error: first"));
    assert_eq!(
        out.finish(Ended::Stalled, None).as_deref(),
        Some("ダウンローダが 5 分間、出力も読み書きもしないまま止まっていたので中断しました（直前の出力: Error: first）")
    );
    out.on_line(Stream::Stderr, "Error: API rate limit exceeded for x");
    assert_eq!(out.finish(Ended::Exited, Some(1)).as_deref(), Some(RATE_LIMITED));
    assert!(out.finish(Ended::Stalled, None).unwrap().ends_with(&format!("（{RATE_LIMITED}）")));
    assert_eq!(out.finish(Ended::Exited, Some(0)), None, "a run that ended well did not fail");
}

#[test]
fn the_downloader_is_given_its_token_only_where_there_is_one() {
    assert_eq!(token_for(Some("  SECRET  ")).as_deref(), Some("SECRET"));
    assert_eq!(token_for(Some(" \t")), None);
    assert_eq!(token_for(None), None);
    assert_eq!(downloader_args("D")[..4].to_vec(), vec!["-o", "D", "--c-api-version", "0.16.4"]);
    assert_eq!(
        downloader_path(&AssetPath::new("D")).file_name().as_deref(),
        Some("voicevox-downloader.exe")
    );
}

#[test]
fn a_library_in_use_is_moved_to_the_first_free_name() {
    assert!(is_locked_candidate("VOICEVOX_core.dll"));
    assert!(!is_locked_candidate("voicevox_core.dll.old-0"));
    let taken: Vec<String> =
        (0..2).map(|i| format!("voicevox_core.dll.old-{i}")).collect();
    assert_eq!(
        stash_target("voicevox_core.dll", &taken).as_deref(),
        Some("voicevox_core.dll.old-2")
    );
    let taken = vec!["VOICEVOX_CORE.dll.old-0".to_string()];
    assert_eq!(
        stash_target("voicevox_core.dll", &taken).as_deref(),
        Some("voicevox_core.dll.old-1")
    );
    let all: Vec<String> = (0..100).map(|i| format!("voicevox_core.dll.old-{i}")).collect();
    assert_eq!(stash_target("voicevox_core.dll", &all), None);
    let expected =
        std::path::Path::new("voicevox_core.dll").with_extension("dll.old-7");
    assert_eq!(
        stash_target("voicevox_core.dll", &all[..7].to_vec()).as_deref(),
        expected.to_str()
    );
}

#[test]
fn an_empty_answer_of_the_core_is_an_error() {
    assert_eq!(synthesize(0, Some(vec![1])), Ok(vec![1]));
    assert_eq!(synthesize(0, Some(vec![])), Err("合成結果が空でした".to_string()));
    assert_eq!(synthesize(0, None), Err("合成結果が空でした".to_string()));
    assert_eq!(
        synthesize(7, Some(vec![1])),
        Err("音声合成に失敗しました (voicevox コード 7)".to_string())
    );
    assert_eq!(openjtalk_analyze(0, Some("[]".to_string())), Ok("[]".to_string()));
    assert_eq!(openjtalk_analyze(0, None), Err("解析結果が空".to_string()));
    assert_eq!(
        openjtalk_analyze(-1, None),
        Err("解析に失敗しました (voicevox コード -1)".to_string())
    );
    assert_eq!(metas_json(Some("m".to_string())), Ok("m".to_string()));
    assert_eq!(metas_json(None), Err("メタ情報の取得に失敗".to_string()));
}
