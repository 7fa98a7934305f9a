use ugg::busy::{BusyFlag, IrodoriBusyGuard};
use ugg::irodori::{
    busy_mid_launch, not_stopped, request_refused, should_shutdown_for_idle, speech_answer,
    voice_ref_answer, Adoption, EnsureStep, IrodoriClient, Reply, TtsError, RECENT_SECRETS,
};
use ugg::redact::{
    is_hf_progress_line, json_inner, route_stderr_line, sanitize_sidecar_error,
    sanitize_stderr_line, secret_variants, truncate_for_log, StderrRoute,
};

fn strings(v: &[&str]) -> Vec<String> {
    v.iter().map(|s| s.to_string()).collect()
}

#[test]
fn a_running_update_blocks_a_new_sidecar() {
    let client = IrodoriClient::new();
    let mut flag = BusyFlag::new();
    let guard = IrodoriBusyGuard::acquire(&mut flag).unwrap();
    match client.ensure_sidecar_running(0, ugg::busy::is_busy(&flag)) {
        EnsureStep::Refused(err) => assert!(err.message().contains("進行中"), "{err:?}"),
        other => panic!("更新中は起動しないこと: {other:?}"),
    }
    guard.release(&mut flag);
    assert_eq!(
        client.ensure_sidecar_running(0, ugg::busy::is_busy(&flag)),
        EnsureStep::Start,
        "更新が終わったら塞がないこと"
    );
}

#[test]
fn an_update_that_begins_mid_launch_is_not_ignored() {
    let mut client = IrodoriClient::new();
    assert_eq!(client.adopt_sidecar(50001, true), Adoption::Busy);
    assert!(busy_mid_launch().message().contains("導入または更新"));
    assert!(client.current_port().is_none(), "居座らせない");
    assert_eq!(client.adopt_sidecar(50002, false), Adoption::Stored(50002));
    assert_eq!(client.current_port(), Some(50002), "採用したものを使う");
    assert_eq!(client.adopt_sidecar(50003, false), Adoption::Redundant(50002));
}

#[test]
fn a_json_escaped_utterance_is_still_hidden() {
    let spoken = "彼は「\"大丈夫\"」と言った\nそして帰った";
    let mut fields = serde_json::Map::new();
    fields.insert(
        "detail".to_string(),
        serde_json::Value::String(format!("Irodori 合成失敗: bad input {spoken}")),
    );
    let body = serde_json::Value::Object(fields).to_string();
    assert!(!body.contains(spoken), "前提: 本文ではエスケープされている");
    let got = sanitize_sidecar_error(&body, &strings(&[spoken, ""]));
    assert!(
        !got.contains("大丈夫") && !got.contains("帰った"),
        "発話が残っている: {got}"
    );
    assert!(got.contains("«伏字»"), "{got}");
}

#[test]
fn the_spoken_text_never_reaches_the_log() {
    let spoken = "きょうもおつかれさま、ゆっくりやすんでね";
    let caption = "明るく元気な少女の声";
    let body = format!("Irodori 合成失敗: TokenizerError at '{spoken}' (caption={caption})");

    let got = sanitize_sidecar_error(&body, &strings(&[spoken, caption]));

    assert!(!got.contains(spoken), "発話テキストが残っている: {got}");
    assert!(!got.contains(caption), "キャプションが残っている: {got}");
    assert!(
        got.contains("TokenizerError"),
        "診断に要る部分まで消してはいけない: {got}"
    );
}

#[test]
fn a_stderr_line_hides_every_line_of_a_recent_utterance() {
    let recent = vec![
        "きょうもおつかれさま\nゆっくりやすんでね".to_string(),
        "明るく元気な少女の声".to_string(),
    ];
    let got = sanitize_stderr_line("WARNING: odd token in 'ゆっくりやすんでね'", &recent);
    assert!(!got.contains("ゆっくり"), "{got}");
    assert!(got.contains("WARNING: odd token"), "診断に要る部分は残す: {got}");
    let got = sanitize_stderr_line(
        "ValueError: 'きょうもおつかれさま\\nゆっくりやすんでね' (明るく元気な少女の声)",
        &recent,
    );
    assert!(
        !got.contains("おつかれ") && !got.contains("ゆっくり") && !got.contains("少女"),
        "{got}"
    );
    let timing = "[irodori] 合成 239 ms（8 ステップ・sway・参照 latent）";
    assert_eq!(sanitize_stderr_line(timing, &recent), timing);
}

#[test]
fn an_utterance_with_characters_python_escapes_is_still_hidden() {
    let spoken = "ふうっ😮\u{200D}💨つかれた";
    let with_wide_space = "きょうも\u{3000}おつかれさま";
    let recent = vec![spoken.to_string(), with_wide_space.to_string()];
    let logged = format!(
        "ValueError: bad token in 'ふうっ😮\\u200d💨つかれた' / 'きょうも\\u3000おつかれさま'"
    );
    let got = sanitize_stderr_line(&logged, &recent);
    assert!(
        !got.contains("つかれた") && !got.contains("おつかれさま") && !got.contains("ふうっ"),
        "発話が残っている: {got}"
    );
    assert!(got.contains("ValueError"), "診断に要る部分は残す: {got}");
}

#[test]
fn stderr_lines_are_hidden_before_they_are_routed() {
    let recent = vec!["ないしょのはなし".to_string()];
    assert_eq!(
        route_stderr_line("[hf-download] ないしょのはなし を確認中…", &recent),
        StderrRoute::Progress("[hf-download] «伏字» を確認中…".to_string())
    );
    assert_eq!(
        route_stderr_line("Traceback: ないしょのはなし", &recent),
        StderrRoute::Log("Traceback: «伏字»".to_string())
    );
}

#[test]
fn the_stderr_sink_hides_what_the_client_has_sent() {
    let mut client = IrodoriClient::new();
    client.remember_secrets(&vec!["ないしょの本文です", "ないしょの声色"]);
    let sink = |line: &str| route_stderr_line(line, client.recent_secrets());
    assert_eq!(
        sink("ValueError: ないしょの本文です を読めません"),
        StderrRoute::Log("ValueError: «伏字» を読めません".to_string())
    );
    assert_eq!(
        sink("[hf-download] ないしょの声色 を確認中…"),
        StderrRoute::Progress("[hf-download] «伏字» を確認中…".to_string())
    );
    assert_eq!(
        sink("[irodori] 合成 239 ms（8 ステップ・sway・参照 latent）"),
        StderrRoute::Log(
            "[irodori] 合成 239 ms（8 ステップ・sway・参照 latent）".to_string()
        ),
        "平時の行は変えない"
    );
}

#[test]
fn what_is_sent_is_remembered_for_hiding_stderr() {
    let mut client = IrodoriClient::new();
    client.remember_secrets(&vec!["ないしょの本文です", "ないしょの声色"]);
    client.remember_secrets(&vec!["べつの声色の説明"]);
    assert_eq!(
        *client.recent_secrets(),
        strings(&["ないしょの本文です", "ないしょの声色", "べつの声色の説明"])
    );
    for i in 0..20 {
        client.remember_secrets(&vec![&format!("本文その{i}")]);
    }
    assert_eq!(client.recent_secrets().len(), RECENT_SECRETS);
    assert_eq!(client.recent_secrets().last().map(String::as_str), Some("本文その19"));
}

#[test]
fn short_secrets_are_not_redacted() {
    let got = sanitize_sidecar_error("CUDA out of memory", &strings(&["a", "of", ""]));
    assert_eq!(got, "CUDA out of memory", "3 文字以下は伏せない");
}

#[test]
fn a_long_body_is_truncated() {
    let body = "x".repeat(500);
    let got = sanitize_sidecar_error(&body, &vec![]);
    assert!(got.chars().count() < 400, "切り詰めていない: {}", got.chars().count());
    assert!(got.ends_with("…(以下省略)"));
}

#[test]
fn voice_ref_missing_error_includes_slot() {
    let err = TtsError::VoiceRefMissing("main".to_string());
    let msg = err.message();
    assert!(msg.contains("main"));
    assert!(msg.contains("参照音声"));
}

#[test]
fn sidecar_start_error_keeps_inner_message() {
    let err = TtsError::SidecarStart("python.exe not found".to_string());
    let msg = err.message();
    assert!(msg.contains("python.exe not found"));
}

#[test]
fn shutdown_if_idle_does_nothing_when_no_sidecar() {
    let mut client = IrodoriClient::new();
    assert_eq!(client.shutdown_if_idle(1_000_000, 60), None);
}

#[test]
fn should_notify_unavailable_gates_within_cooldown() {
    let mut client = IrodoriClient::new();
    let now = 1_700_000_000;
    assert!(client.should_notify_unavailable_at(now));
    assert!(!client.should_notify_unavailable_at(now));
}

#[test]
fn should_notify_unavailable_re_fires_after_300s() {
    let mut client = IrodoriClient::new();
    assert!(client.should_notify_unavailable_at(1_000));
    assert!(!client.should_notify_unavailable_at(1_000));
    assert!(!client.should_notify_unavailable_at(1_299));
    assert!(client.should_notify_unavailable_at(1_300));
}

#[test]
fn should_notify_unavailable_handles_clock_skew_backward() {
    let mut client = IrodoriClient::new();
    assert!(client.should_notify_unavailable_at(2_000));
    assert!(client.should_notify_unavailable_at(1_500));
    assert!(!client.should_notify_unavailable_at(1_500));
}

#[test]
fn is_hf_progress_line_matches_only_prefix() {
    assert!(is_hf_progress_line("[hf-download] Aratako/X をダウンロード中…"));
    assert!(is_hf_progress_line("[hf-download] 完了"));
    assert!(!is_hf_progress_line(" [hf-download] leading space"));
    assert!(!is_hf_progress_line(""));
    assert!(!is_hf_progress_line(
        "INFO:     127.0.0.1:54321 - GET /health HTTP/1.1 200 OK"
    ));
    assert!(!is_hf_progress_line("sidecar.py: backend 初期化失敗"));
}

#[test]
fn should_shutdown_for_idle_handles_all_branches() {
    assert!(!should_shutdown_for_idle(false, 1_000, 999_999, 300));
    assert!(!should_shutdown_for_idle(true, 0, 999_999, 300));
    assert!(!should_shutdown_for_idle(true, 1_000, 1_000, 300));
    assert!(!should_shutdown_for_idle(true, 1_000, 1_299, 300));
    assert!(should_shutdown_for_idle(true, 1_000, 1_300, 300));
    assert!(should_shutdown_for_idle(true, 1_000, 1_600, 300));
}

#[test]
fn a_refused_request_names_its_status_and_hides_what_was_sent() {
    let err = request_refused(
        "500 Internal Server Error",
        "bad token in 'ないしょの本文です'",
        &strings(&["ないしょの本文です"]),
    );
    assert_eq!(
        err.message(),
        "HTTP 通信に失敗しました: 500 Internal Server Error: bad token in '«伏字»'"
    );
}

#[test]
fn a_failure_bars_starting_for_a_while() {
    let mut client = IrodoriClient::new();
    client.disable_for(1_000, 60);
    assert!(client.currently_disabled(1_059));
    match client.ensure_sidecar_running(1_059, false) {
        EnsureStep::Refused(e) => assert!(e.message().contains("cooldown")),
        other => panic!("{other:?}"),
    }
    assert!(!client.currently_disabled(1_060));
    assert_eq!(client.ensure_sidecar_running(1_060, false), EnsureStep::Start);
}

#[test]
fn an_idle_sidecar_is_forgotten_and_stopped() {
    let mut client = IrodoriClient::new();
    assert_eq!(client.adopt_sidecar(50001, false), Adoption::Stored(50001));
    client.touch_last_used(1_000);
    assert_eq!(client.ensure_sidecar_running(1_001, true), EnsureStep::Running(50001));
    assert_eq!(client.shutdown_if_idle(1_299, 300), None);
    assert_eq!(client.shutdown_if_idle(1_300, 300), Some(50001));
    assert_eq!(client.current_port(), None);
    assert_eq!(client.shutdown(), None);
}

#[test]
fn json_escapes_are_those_of_the_json_writer() {
    for s in ["plain", "\"q\" \\ \n\r\t\u{8}\u{c}\u{1}", "日本語\u{7f}😮\u{200d}💨"] {
        let whole = serde_json::to_string(s).unwrap();
        assert_eq!(json_inner(s).as_deref(), Some(&whole[1..whole.len() - 1]));
    }
}

#[test]
fn the_longest_form_of_a_text_is_masked_first() {
    let v = secret_variants(&strings(&["ながいぎょうその一\nみじかい行"]));
    for pair in v.windows(2) {
        assert!(pair[0].chars().count() >= pair[1].chars().count(), "{v:?}");
    }
    assert!(v.contains(&"みじかい行".to_string()));
}

#[test]
fn a_log_line_is_cut_by_characters() {
    let exact = "あ".repeat(300);
    assert_eq!(truncate_for_log(&exact), exact);
    let longer = "あ".repeat(301);
    assert_eq!(truncate_for_log(&longer), format!("{exact}…(以下省略)"));
}

#[test]
fn what_is_sent_is_noted_before_anything_else() {
    let mut client = IrodoriClient::new();
    client.disable_for(0, 100);
    let step = client.synthesize(1, false, "秘密の話です", Some("低い声で"));
    assert!(matches!(step, EnsureStep::Refused(_)), "{step:?}");
    assert_eq!(*client.recent_secrets(), strings(&["秘密の話です", "低い声で"]));
    let step = client.generate_voice_ref(200, false, "明るい声");
    assert_eq!(step, EnsureStep::Start);
    assert_eq!(client.recent_secrets().len(), 3);
}

#[test]
fn a_request_names_the_model_and_the_voice() {
    let mut client = IrodoriClient::new();
    client.adopt_sidecar(8123, false);
    let speed = 1.25f64;
    let (url, body) =
        client.speech_request(50, 8123, "やあ", "C:/v.wav", speed.to_bits(), Some("静かに"));
    assert_eq!(url, "http://127.0.0.1:8123/v1/audio/speech");
    assert_eq!(body.model, "irodori-voice-clone");
    assert_eq!(body.input, "やあ");
    assert_eq!(body.voice, "C:/v.wav");
    assert_eq!(body.response_format, "wav");
    assert_eq!(f64::from_bits(body.speed), speed);
    assert_eq!(body.caption.as_deref(), Some("静かに"));
    assert_eq!(client.shutdown_if_idle(60, 20), None, "used ten seconds ago");
    assert_eq!(client.shutdown_if_idle(70, 20), Some(8123));
    let (url, body) = client.voice_ref_request(50, 8123, "声", "o.wav");
    assert_eq!(url, "http://127.0.0.1:8123/v1/voice_ref/generate");
    assert_eq!((body.caption.as_str(), body.out_path.as_str()), ("声", "o.wav"));
}

#[test]
fn the_answer_to_a_request_is_told_without_what_was_sent() {
    assert_eq!(speech_answer(Reply::Read(vec![1, 2]), "x", None), Ok(vec![1, 2]));
    assert_eq!(
        speech_answer(
            Reply::Refused {
                status: "500 Internal Server Error".to_string(),
                body: "failed: 秘密の話です / 低い声で".to_string(),
            },
            "秘密の話です",
            Some("低い声で"),
        ),
        Err(TtsError::Http("500 Internal Server Error: failed: «伏字» / «伏字»".to_string()))
    );
    assert_eq!(
        speech_answer(Reply::NotAnswered("gone".to_string()), "x", None),
        Err(TtsError::Http("gone".to_string()))
    );
    assert_eq!(
        speech_answer(Reply::Unreadable("cut".to_string()), "x", None),
        Err(TtsError::Http("body 受信失敗: cut".to_string()))
    );
    assert_eq!(
        voice_ref_answer(Reply::Unreadable("cut".to_string()), "x"),
        Err(TtsError::Http("voice_ref レスポンス解析失敗: cut".to_string()))
    );
    assert_eq!(voice_ref_answer(Reply::Read("p".to_string()), "x"), Ok("p".to_string()));
    assert_eq!(not_stopped("why"), TtsError::Http("shutdown 失敗: why".to_string()));
}

#[test]
fn a_sidecar_that_is_not_running_is_not_unwell() {
    let mut client = IrodoriClient::new();
    assert!(client.health_ping(false));
    client.adopt_sidecar(1, false);
    assert!(!client.health_ping(false));
    assert!(client.health_ping(true));
}
