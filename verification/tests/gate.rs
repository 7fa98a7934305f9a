use ugg::child_process::Ended;
use ugg::gate::{
    classify_gate, cuda_line, explain_after_recheck, gate_args, gate_exit, gate_line,
    gate_not_started, gate_verdict, pick_gate_voice_ref, probe_cuda, voice_not_copied, GateExit,
    GateLine, GateOutcome, GateRun, GateVerdict, VoiceFile, CUDA_SCRIPT,
};
use ugg::json::{JsonDoc, JsonField};

/// What is read of a line that reports this.
fn json(text: &str) -> Option<JsonDoc> {
    match gate_line(&format!("UGG_SYNTH_ONCE {text}"), false) {
        GateLine::Result(Some(d)) => Some(d),
        other => panic!("{other:?}"),
    }
}

#[test]
fn the_gate_outcome_is_read_from_the_markers_and_the_exit() {
    let start = json(r#"{"cuda":true,"vram_free_mb":2500}"#);
    let ok = json(r#"{"ok":true,"ms":41234,"bytes":90000}"#);
    assert_eq!(
        classify_gate(GateExit::Code(Some(0)), &start, &ok),
        GateOutcome::Passed { ms: 41234 }
    );
    let empty = json(r#"{"ok":true,"ms":1,"bytes":0}"#);
    assert!(matches!(
        classify_gate(GateExit::Code(Some(0)), &None, &empty),
        GateOutcome::Failed(_)
    ));
    assert!(!matches!(
        classify_gate(GateExit::Code(Some(1)), &None, &ok),
        GateOutcome::Passed { .. }
    ));
    assert_eq!(
        classify_gate(GateExit::Code(Some(2)), &None, &json(r#"{"ok":false,"kind":"oom"}"#)),
        GateOutcome::OutOfMemory
    );
    assert_eq!(
        classify_gate(GateExit::Code(Some(3)), &None, &json(r#"{"ok":false,"kind":"no_gpu"}"#)),
        GateOutcome::NoGpu
    );
    assert_eq!(
        classify_gate(
            GateExit::Code(Some(1)),
            &None,
            &json(r#"{"ok":false,"kind":"other","error":"FileNotFoundError: model.safetensors"}"#)
        ),
        GateOutcome::Failed("FileNotFoundError: model.safetensors".to_string())
    );
    assert_eq!(
        classify_gate(GateExit::Code(Some(-1073741819)), &start, &None),
        GateOutcome::Crashed { code: Some(-1073741819), vram_free_mb: Some(2500) }
    );
    assert_eq!(classify_gate(GateExit::Code(Some(2)), &None, &None), GateOutcome::OutOfMemory);
    assert_eq!(classify_gate(GateExit::TimedOut, &start, &ok), GateOutcome::TimedOut);
}

#[test]
fn a_gpu_lost_by_the_update_is_rolled_back_but_a_missing_one_is_skipped() {
    assert!(matches!(gate_verdict(&GateOutcome::NoGpu, Some(true)), GateVerdict::RollBack(_)));
    assert!(matches!(gate_verdict(&GateOutcome::NoGpu, Some(false)), GateVerdict::Skip(_)));
    assert!(matches!(gate_verdict(&GateOutcome::NoGpu, None), GateVerdict::Skip(_)));
    assert!(matches!(gate_verdict(&GateOutcome::NoVoiceRef, Some(true)), GateVerdict::Skip(_)));
    assert!(matches!(
        gate_verdict(&GateOutcome::Passed { ms: 1 }, Some(true)),
        GateVerdict::Pass(_)
    ));
}

#[test]
fn a_vram_shortage_is_told_apart_from_a_broken_update() {
    assert!(matches!(
        gate_verdict(&GateOutcome::OutOfMemory, None),
        GateVerdict::RollBackForVram(_)
    ));
    assert!(matches!(
        gate_verdict(&GateOutcome::Crashed { code: Some(1), vram_free_mb: Some(900) }, None),
        GateVerdict::RollBackForVram(_)
    ));
    assert!(matches!(
        gate_verdict(&GateOutcome::Crashed { code: Some(1), vram_free_mb: Some(12000) }, None),
        GateVerdict::RollBack(_)
    ));
    assert!(matches!(
        gate_verdict(&GateOutcome::Crashed { code: Some(1), vram_free_mb: None }, None),
        GateVerdict::RollBack(_)
    ));
    assert!(matches!(
        gate_verdict(&GateOutcome::Failed("x".into()), None),
        GateVerdict::RollBack(_)
    ));
    assert!(matches!(gate_verdict(&GateOutcome::TimedOut, None), GateVerdict::RollBack(_)));
}

#[test]
fn the_recheck_after_the_rollback_says_whose_fault_it_was() {
    let base = "更新したランタイムで合成できませんでした: X";
    let caused = explain_after_recheck(base, &GateOutcome::Passed { ms: 1 });
    assert!(caused.contains("更新が原因"), "{caused}");
    let before = explain_after_recheck(base, &GateOutcome::Failed("FileNotFoundError".into()));
    assert!(before.contains("更新のせいではありません"), "{before}");
    assert!(before.contains("FileNotFoundError"), "{before}");
    let unknown = explain_after_recheck(base, &GateOutcome::OutOfMemory);
    assert!(unknown.contains("分かりません"), "{unknown}");
}

fn voice(name: &str, age: i128) -> VoiceFile {
    VoiceFile { name: name.to_string(), is_file: true, modified: Some(1_000_000 - age) }
}

#[test]
fn the_gate_uses_the_newest_main_reference_voice() {
    assert_eq!(pick_gate_voice_ref(&vec![]), None, "refs が無ければ材料なし");
    let files = vec![
        voice("sub_300.wav", 10),
        voice("main_100.wav", 1000),
        voice("main_200.wav", 100),
        voice("main_200.Aratako__x.fp32-fp32.n-16_e1_s30.latent.pt", 1),
    ];
    assert_eq!(pick_gate_voice_ref(&files), Some(2));
}

#[test]
fn without_a_reference_voice_the_gate_is_not_run() {
    let files = vec![
        VoiceFile { name: "main_1.wav".to_string(), is_file: false, modified: None },
        voice("main_1.txt", 0),
    ];
    assert_eq!(pick_gate_voice_ref(&files), None);
    assert!(matches!(gate_verdict(&GateOutcome::NoVoiceRef, None), GateVerdict::Skip(_)));
}

#[test]
fn the_lines_of_the_check_are_sorted() {
    assert_eq!(
        gate_line("UGG_SYNTH_ONCE_START {\"vram_free_mb\":7}", false),
        GateLine::Start(Some(JsonDoc::Object(vec![(
            "vram_free_mb".to_string(),
            JsonField::Unsigned(7)
        )])))
    );
    assert_eq!(gate_line("UGG_SYNTH_ONCE broken", false), GateLine::Result(None));
    assert_eq!(gate_line("loading", false), GateLine::Show);
    assert_eq!(gate_line("10%", true), GateLine::Ignore);
    assert_eq!(cuda_line("UGG_CUDA true"), Some(Some(true)));
    assert_eq!(cuda_line("UGG_CUDA ?"), Some(None));
    assert_eq!(cuda_line("other"), None);
    assert!(CUDA_SCRIPT.contains("\"UGG_CUDA \""));
}

#[test]
fn a_check_that_was_stopped_did_not_end_in_time() {
    assert_eq!(gate_exit(Ended::Exited, Some(3)), GateExit::Code(Some(3)));
    assert_eq!(gate_exit(Ended::Stalled, None), GateExit::TimedOut);
    assert_eq!(gate_exit(Ended::TimedOut, None), GateExit::TimedOut);
    assert_eq!(
        gate_args("s.py", "R", "v.wav", &vec!["--m".to_string()]),
        vec!["s.py", "--asset-dir", "R", "--synth-once", "--voice-ref", "v.wav", "--m"]
    );
}

#[test]
fn the_reports_of_a_run_decide_its_outcome() {
    let mut run = GateRun::new();
    assert!(run.on_line("loading", false));
    assert!(!run.on_line("10%", true));
    assert!(!run.on_line("UGG_SYNTH_ONCE_START {\"vram_free_mb\":2500}", false));
    assert_eq!(
        run.finish(Ended::Exited, Some(-1)),
        GateOutcome::Crashed { code: Some(-1), vram_free_mb: Some(2500) }
    );
    assert!(!run.on_line("UGG_SYNTH_ONCE {\"ok\":true,\"ms\":12,\"bytes\":9}", false));
    assert_eq!(run.finish(Ended::Exited, Some(0)), GateOutcome::Passed { ms: 12 });
    assert_eq!(run.finish(Ended::Stalled, None), GateOutcome::TimedOut);
    assert_eq!(voice_not_copied("x"), GateOutcome::Failed("参照音声を作業場所へ写せません: x".into()));
    assert_eq!(gate_not_started("x"), GateOutcome::Failed("python 起動失敗: x".into()));
}

#[test]
fn the_last_word_on_cuda_counts() {
    let lines = |v: &[&str]| -> Vec<String> { v.iter().map(|s| s.to_string()).collect() };
    assert_eq!(probe_cuda(&lines(&["UGG_CUDA true", "warning"])), Some(true));
    assert_eq!(probe_cuda(&lines(&["UGG_CUDA true", "UGG_CUDA false"])), Some(false));
    assert_eq!(probe_cuda(&lines(&["UGG_CUDA true", "UGG_CUDA 1"])), None);
    assert_eq!(probe_cuda(&lines(&["warning"])), None);
}
