use ugg::child_process::{Ended, Stream};
use ugg::pip::{
    describe_args, failure_reason, is_failure_line, pip_has_raw_progress, pip_install_args,
    to_megabytes, Line, OutputTail, PipProgress, PythonRun, FAILURE_TAIL_LINES,
};

fn strings(v: &[&str]) -> Vec<String> {
    v.iter().map(|s| s.to_string()).collect()
}

fn reason(tail: &OutputTail) -> Option<&str> {
    tail.reason().map(String::as_str)
}

#[test]
fn the_reason_of_a_pip_failure_is_its_error_line() {
    let mut tail = OutputTail::new();
    for (s, t) in [
        (Stream::Stdout, "Collecting torch"),
        (
            Stream::Stderr,
            "ERROR: Could not install packages due to an OSError: [WinError 5] アクセスが拒否されました。: 'c10.dll'",
        ),
        (Stream::Stderr, "Check the permissions."),
        (Stream::Stderr, "[notice] A new release of pip is available: 26.1.2 -> 26.2"),
    ] {
        tail.push(s, t, false);
    }
    assert_eq!(
        reason(&tail),
        Some("ERROR: Could not install packages due to an OSError: [WinError 5] アクセスが拒否されました。: 'c10.dll'")
    );
}

#[test]
fn the_reason_of_a_traceback_is_its_exception_and_stdout_is_ignored() {
    let mut tail = OutputTail::new();
    for (s, t) in [
        (Stream::Stderr, "Traceback (most recent call last):"),
        (Stream::Stderr, "File \"<string>\", line 1, in <module>"),
        (Stream::Stderr, "ModuleNotFoundError: No module named 'pydub'"),
        (Stream::Stdout, "loading done"),
    ] {
        tail.push(s, t, false);
    }
    assert_eq!(reason(&tail), Some("ModuleNotFoundError: No module named 'pydub'"));
}

#[test]
fn without_an_error_line_the_last_stderr_line_is_the_reason() {
    let mut tail = OutputTail::new();
    tail.push(
        Stream::Stderr,
        "[hf-download] Aratako/Irodori-TTS-500M-v3@main/model.safetensors を確認中…",
        false,
    );
    tail.push(Stream::Stderr, "something odd happened", false);
    assert_eq!(reason(&tail), Some("something odd happened"));
    tail.push(Stream::Stderr, "[hf-download] モデル DL 失敗: 404 Client Error", false);
    tail.push(Stream::Stderr, "note: see above", false);
    assert_eq!(reason(&tail), Some("[hf-download] モデル DL 失敗: 404 Client Error"));
}

#[test]
fn the_tail_skips_overwritten_progress_and_is_bounded() {
    let mut tail = OutputTail::new();
    tail.push(Stream::Stderr, "model.safetensors:  45%|####5     | 900M/2.00G", true);
    assert!(tail.lines.is_empty());
    assert_eq!(reason(&tail), None, "進捗の行を理由にしない");
    for i in 0..(FAILURE_TAIL_LINES + 5) {
        tail.push(Stream::Stdout, &format!("line {i}"), false);
    }
    assert_eq!(tail.lines.len(), FAILURE_TAIL_LINES);
    assert_eq!(tail.lines.last().map(String::as_str), Some("line 24"));
}

#[test]
fn pip_raw_progress_is_shown_once_per_percent() {
    let mut p = PipProgress::new();
    let total = 100 * 1024 * 1024;
    assert_eq!(
        p.describe(&format!("Progress 0 of {total}")),
        Some(Some("  取得中 0 / 100 MB（0%）".to_string()))
    );
    assert_eq!(p.describe(&format!("Progress 1000 of {total}")), Some(None));
    assert_eq!(
        p.describe(&format!("Progress {} of {total}", total / 2)),
        Some(Some("  取得中 50 / 100 MB（50%）".to_string()))
    );
    assert_eq!(
        p.describe(&format!("Progress 0 of {total}")),
        Some(Some("  取得中 0 / 100 MB（0%）".to_string()))
    );
    assert_eq!(p.describe("Collecting torch"), None);
    assert_eq!(p.describe("Progress bar is fine"), None);
}

#[test]
fn pip_raw_progress_without_a_size_is_shown_every_ten_megabytes() {
    let mut p = PipProgress::new();
    const MB: u64 = 1024 * 1024;
    assert!(matches!(p.describe("Progress 0 of 0"), Some(Some(_))));
    assert_eq!(p.describe(&format!("Progress {} of 0", 5 * MB)), Some(None));
    assert_eq!(
        p.describe(&format!("Progress {} of 0", 10 * MB)),
        Some(Some("  取得中 10 MB".to_string()))
    );
}

#[test]
fn raw_progress_is_used_only_with_a_pip_that_knows_it() {
    let has = |names: &[&str]| pip_has_raw_progress(&strings(names));
    assert!(has(&["pip-26.1.2.dist-info"]));
    assert!(has(&["pip-24.1.dist-info"]));
    assert!(!has(&["pip-24.0.dist-info"]));
    assert!(!has(&["pip-23.3.2.dist-info"]));
    assert!(!has(&["pipx-25.0.dist-info", "torch-2.10.0.dist-info"]));
    assert!(!has(&[]), "pip が見当たらなければ付けない");
    assert!(!has(&["pip-25.dist-info", "pip-.1.dist-info", "pip-99999999999.1.dist-info"]));
}

#[test]
fn exception_lines_are_recognised_but_prose_is_not() {
    assert!(is_failure_line("OSError: [WinError 5] アクセスが拒否されました。"));
    assert!(is_failure_line("huggingface_hub.errors.RepositoryNotFoundError: 404"));
    assert!(is_failure_line("ERROR: No matching distribution found for torch"));
    assert!(!is_failure_line("Successfully installed torch-2.10.0"));
    assert!(!is_failure_line("Note: this Error: is prose"));
    assert!(!is_failure_line("[hf-download] モデル DL 完了"));
}

fn line(stream: Stream, text: &str, overwritten: bool) -> Line {
    Line { stream, text: text.to_string(), overwritten }
}

#[test]
fn the_reason_comes_from_stderr_even_when_stdout_arrives_last() {
    let lines = vec![
        line(Stream::Stderr, "ModuleNotFoundError: No module named 'pydub'", false),
        line(Stream::Stderr, "10%", true),
        line(Stream::Stdout, "stdout-late", false),
    ];
    assert_eq!(
        failure_reason(&lines, Some("python 異常終了 (code Some(1))".to_string())).as_deref(),
        Some("ModuleNotFoundError: No module named 'pydub'")
    );
    assert_eq!(failure_reason(&lines, None), None);
    assert_eq!(failure_reason(&vec![], Some("e".to_string())).as_deref(), Some("e"));
}

#[test]
fn progress_lines_are_rewritten_and_the_error_line_becomes_the_reason() {
    let mut run = PythonRun::new();
    assert_eq!(
        run.on_line(Stream::Stdout, "Progress 0 of 104857600", false),
        Some(("  取得中 0 / 100 MB（0%）".to_string(), true)),
        "生の進捗の行を流している"
    );
    assert_eq!(run.on_line(Stream::Stdout, "Progress 1 of 104857600", false), None);
    assert_eq!(
        run.on_line(Stream::Stdout, "Collecting torch", false),
        Some(("Collecting torch".to_string(), false))
    );
    run.on_line(Stream::Stderr, "ERROR: boom", false);
    run.on_line(Stream::Stderr, "Check the permissions.", false);
    let message = run.finish(Ended::Exited, Some(1)).unwrap();
    assert_eq!(message, "python 異常終了 (code Some(1)): ERROR: boom");
    assert_eq!(run.finish(Ended::Exited, Some(0)), None);
    assert!(run.finish(Ended::Stalled, None).unwrap().contains("5 分間"));
    assert!(run.finish(Ended::TimedOut, None).unwrap().contains("時間内に"));
    assert_eq!(
        PythonRun::new().finish(Ended::Exited, None).as_deref(),
        Some("python 異常終了 (code None)")
    );
}

#[test]
fn the_logged_arguments_omit_inline_scripts() {
    assert_eq!(describe_args(&strings(&["-c", "import json\nprint(1)"])), "-c <script>");
    assert_eq!(
        describe_args(&strings(&["-m", "pip", "install", "torch"])),
        "-m pip install torch"
    );
}

#[test]
fn megabytes_are_shown_as_floating_point_shows_them() {
    let mut cases = vec![0, 1, u64::MAX, u64::MAX - 1, 1 << 63, (1 << 53) + 1, (1 << 54) + 3];
    for k in 0..64 {
        for d in [0u64, 1, 2, 0x8_0000, 0x18_0000, 0x8_0001, 0x7_FFFF] {
            cases.push((1u64 << k).wrapping_add(d));
            cases.push((1u64 << k).wrapping_sub(d));
        }
    }
    for n in cases {
        assert_eq!(
            to_megabytes(n).to_string(),
            format!("{:.0}", n as f64 / (1024.0 * 1024.0)),
            "{n}"
        );
    }
}

#[test]
fn progress_is_asked_for_in_lines_only_where_pip_knows_how() {
    assert_eq!(
        pip_install_args(&strings(&["torch"]), true).join(" "),
        "-m pip install --no-warn-script-location --disable-pip-version-check --progress-bar raw torch"
    );
    assert_eq!(
        pip_install_args(&strings(&["torch"]), false).join(" "),
        "-m pip install --no-warn-script-location --disable-pip-version-check torch"
    );
}

#[test]
fn progress_far_beyond_a_hundred_percent_is_still_told() {
    let mut p = PipProgress::new();
    let max = u64::MAX;
    assert_eq!(
        p.describe(&format!("Progress {max} of 1")),
        Some(Some(format!("  取得中 17592186044416 / 0 MB（{max}%）")))
    );
    assert_eq!(p.describe(&format!("Progress {max}0 of 1")), None, "読めない数は進捗ではない");
    assert_eq!(p.describe("Progress +5 of  0 "), Some(Some("  取得中 0 MB".to_string())));
}

#[test]
fn the_same_progress_twice_shows_nothing_new() {
    for line in ["Progress 5 of 10", "Progress 0 of 0", "Progress 99999999 of 0"] {
        let mut p = PipProgress::new();
        assert!(matches!(p.describe(line), Some(Some(_))), "{line}");
        assert_eq!(p.describe(line), Some(None), "{line}");
    }
    let mut p = PipProgress::new();
    let told = p.describe(&format!("Progress {0} of {0}", 1u64 << 40)).flatten().unwrap();
    assert!(told.ends_with("（100%）"), "{told}");
}
