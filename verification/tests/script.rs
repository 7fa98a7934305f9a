use ugg::doubles::{pause_in_range, seconds_to_ms, speed_in_range};
use ugg::reader::{ReadingChunk, VoiceSlot};
use ugg::script::{
    extract_fenced_blocks, normalize_caption, parse_script, DefaultsDef, FencedBlock, JsonFault,
    LineDef, Number, ParsedBlocks, ScriptError, SpeakerDef,
};

fn number(f: f64) -> Number {
    Number { bits: f.to_bits(), shown: f.to_string() }
}

fn opt_number(v: &serde_json::Value) -> Option<Number> {
    v.as_f64().map(number)
}

fn opt_string(v: &serde_json::Value) -> Option<String> {
    v.as_str().map(|s| s.to_string())
}

fn read<T>(
    block: &Option<FencedBlock>,
    get: fn(&serde_json::Value) -> T,
) -> Option<Result<T, JsonFault>> {
    block.as_ref().map(|b| match serde_json::from_str::<serde_json::Value>(&b.body) {
        Ok(v) => Ok(get(&v)),
        Err(e) => Err(JsonFault { line: e.line(), detail: e.to_string() }),
    })
}

fn parse(content: &str) -> Result<Vec<ReadingChunk>, ScriptError> {
    let blocks = extract_fenced_blocks(content)?;
    let parsed = ParsedBlocks {
        defaults: read(&blocks.defaults, |v| DefaultsDef {
            default_pause_seconds: opt_number(&v["default_pause_seconds"]),
            speed: opt_number(&v["speed"]),
        }),
        speakers: read(&blocks.speakers, |v| {
            v.as_object()
                .unwrap()
                .iter()
                .map(|(id, d)| {
                    let def = SpeakerDef {
                        slot: opt_string(&d["slot"]),
                        ref_wav: !d["ref_wav"].is_null(),
                    };
                    (id.clone(), def)
                })
                .collect::<Vec<_>>()
        }),
        lines: read(&blocks.lines, |v| {
            v.as_array()
                .unwrap()
                .iter()
                .map(|l| LineDef {
                    speaker: l["speaker"].as_str().unwrap().to_string(),
                    text: l["text"].as_str().unwrap().to_string(),
                    speed: opt_number(&l["speed"]),
                    caption: opt_string(&l["caption"]),
                    pause_after: opt_number(&l["pause_after"]),
                })
                .collect::<Vec<_>>()
        }),
    };
    parse_script(&blocks, &parsed)
}

fn ok(content: &str) -> Vec<ReadingChunk> {
    parse(content).unwrap_or_else(|e| panic!("expected Ok, got Err: {e:?}"))
}

fn err(content: &str) -> ScriptError {
    parse(content).expect_err("expected Err")
}

const BASIC: &str = r#"
```json speakers
{ "host": { "slot": "main" }, "guest": { "slot": "sub" } }
```
```json lines
[
  { "speaker": "host",  "text": "ねえ、聞いた？" },
  { "speaker": "guest", "text": "知ってるわ。", "pause_after": 0.6, "speed": 0.1 },
  { "speaker": "host",  "text": "えええ！！", "caption": "驚いて大声で" }
]
```
"#;

#[test]
fn test01_basic_script_parses_all_fields() {
    let chunks = ok(BASIC);
    assert_eq!(chunks.len(), 3);

    assert_eq!(chunks[0].text, "ねえ、聞いた？");
    assert_eq!(chunks[0].slot, VoiceSlot::Main);
    assert_eq!(f64::from_bits(chunks[0].speed_offset), 0.0);
    assert_eq!(chunks[0].caption, None);
    assert_eq!(chunks[0].pause_after_ms, 500);

    assert_eq!(chunks[1].text, "知ってるわ。");
    assert_eq!(chunks[1].slot, VoiceSlot::Sub);
    assert_eq!(f64::from_bits(chunks[1].speed_offset), 0.1);
    assert_eq!(chunks[1].pause_after_ms, 600);

    assert_eq!(chunks[2].text, "えええ！！");
    assert_eq!(chunks[2].slot, VoiceSlot::Main);
    assert_eq!(chunks[2].caption.as_deref(), Some("驚いて大声で"));
}

#[test]
fn test02_missing_defaults_uses_speed0_pause500() {
    let content = r#"
```json speakers
{ "host": { "slot": "main" } }
```
```json lines
[ { "speaker": "host", "text": "こんにちは" } ]
```
"#;
    let chunks = ok(content);
    assert_eq!(f64::from_bits(chunks[0].speed_offset), 0.0);
    assert_eq!(chunks[0].pause_after_ms, 500);
}

#[test]
fn test03_line_speed_overrides_defaults_not_additive() {
    let content = r#"
```json defaults
{ "speed": -0.1 }
```
```json speakers
{ "host": { "slot": "main" } }
```
```json lines
[
  { "speaker": "host", "text": "デフォルト適用" },
  { "speaker": "host", "text": "上書き", "speed": 0.3 }
]
```
"#;
    let chunks = ok(content);
    assert_eq!(f64::from_bits(chunks[0].speed_offset), -0.1);
    assert_eq!(f64::from_bits(chunks[1].speed_offset), 0.3);
}

#[test]
fn test04_unknown_speaker_reports_index() {
    let content = r#"
```json speakers
{ "host": { "slot": "main" } }
```
```json lines
[
  { "speaker": "host", "text": "ok" },
  { "speaker": "ghost", "text": "誰？" }
]
```
"#;
    assert_eq!(
        err(content),
        ScriptError::UnknownSpeaker { index: 1, speaker: "ghost".to_string() }
    );
}

#[test]
fn test05_ref_wav_is_rejected() {
    let content = r#"
```json speakers
{ "host": { "ref_wav": "voice.wav" } }
```
```json lines
[ { "speaker": "host", "text": "ok" } ]
```
"#;
    assert_eq!(err(content), ScriptError::UnsupportedRefWav { speaker_id: "host".to_string() });
}

#[test]
fn test06_invalid_slot_value() {
    let content = r#"
```json speakers
{ "host": { "slot": "narrator" } }
```
```json lines
[ { "speaker": "host", "text": "ok" } ]
```
"#;
    assert_eq!(
        err(content),
        ScriptError::InvalidSlot { speaker_id: "host".to_string(), slot: "narrator".to_string() }
    );
}

#[test]
fn test07_missing_blocks_is_not_a_script() {
    let content = "# ただの Markdown\n\n本文だけです。";
    assert_eq!(err(content), ScriptError::NotAScript);
}

#[test]
fn test07_duplicate_block_is_error() {
    let content = r#"
```json speakers
{ "host": { "slot": "main" } }
```
```json speakers
{ "host": { "slot": "main" } }
```
```json lines
[ { "speaker": "host", "text": "ok" } ]
```
"#;
    assert_eq!(err(content), ScriptError::DuplicateBlock("speakers"));
}

#[test]
fn test08_empty_text_variants() {
    let content = r#"
```json speakers
{ "host": { "slot": "main" } }
```
```json lines
[ { "speaker": "host", "text": "   " } ]
```
"#;
    assert_eq!(err(content), ScriptError::EmptyText { index: 0 });
}

#[test]
fn test08_unknown_keys_are_ignored() {
    let content = r#"
```json defaults
{ "speed": 0.0, "unknown_default_key": 123 }
```
```json speakers
{ "host": { "slot": "main", "voice_color": "blue" } }
```
```json lines
[ { "speaker": "host", "text": "ok", "extra_key": true } ]
```
"#;
    let chunks = ok(content);
    assert_eq!(chunks.len(), 1);
}

#[test]
fn test09_pause_after_out_of_range() {
    let content = r#"
```json speakers
{ "host": { "slot": "main" } }
```
```json lines
[ { "speaker": "host", "text": "ok", "pause_after": 10.1 } ]
```
"#;
    assert_eq!(
        err(content),
        ScriptError::OutOfRange { index: Some(0), key: "pause_after", value: number(10.1) }
    );
}

#[test]
fn test09_default_pause_seconds_out_of_range() {
    let content = r#"
```json defaults
{ "default_pause_seconds": -0.1 }
```
```json speakers
{ "host": { "slot": "main" } }
```
```json lines
[ { "speaker": "host", "text": "ok" } ]
```
"#;
    assert_eq!(
        err(content),
        ScriptError::OutOfRange {
            index: None,
            key: "default_pause_seconds",
            value: number(-0.1)
        }
    );
}

#[test]
fn test10_speed_out_of_range() {
    let content = r#"
```json speakers
{ "host": { "slot": "main" } }
```
```json lines
[ { "speaker": "host", "text": "ok", "speed": 1.5 } ]
```
"#;
    assert_eq!(
        err(content),
        ScriptError::OutOfRange { index: Some(0), key: "speed", value: number(1.5) }
    );
}

#[test]
fn test11_caption_too_long() {
    let caption = "あ".repeat(201);
    let content = format!(
        r#"
```json speakers
{{ "host": {{ "slot": "main" }} }}
```
```json lines
[ {{ "speaker": "host", "text": "ok", "caption": "{caption}" }} ]
```
"#
    );
    assert_eq!(err(&content), ScriptError::CaptionTooLong { index: 0, len: 201 });
}

#[test]
fn test11_blank_caption_becomes_none() {
    let content = r#"
```json speakers
{ "host": { "slot": "main" } }
```
```json lines
[
  { "speaker": "host", "text": "ok1", "caption": "" },
  { "speaker": "host", "text": "ok2", "caption": "   " }
]
```
"#;
    let chunks = ok(content);
    assert_eq!(chunks[0].caption, None);
    assert_eq!(chunks[1].caption, None);
}

#[test]
fn test12_prose_outside_fences_is_ignored() {
    let content = r#"# メモ

これはフリーテキストです。```インラインではない```

```json speakers
{ "host": { "slot": "main" } }
```

さらに自由な本文。

```json lines
[ { "speaker": "host", "text": "ok" } ]
```

末尾のメモ。
"#;
    let chunks = ok(content);
    assert_eq!(chunks.len(), 1);
}

#[test]
fn test12_case_and_extra_info_string_not_recognized() {
    let content = r#"
```JSON lines
[ { "speaker": "host", "text": "ok" } ]
```
"#;
    assert_eq!(err(content), ScriptError::NotAScript);
}

#[test]
fn test12_extra_info_string_suffix_not_recognized() {
    let content = r#"
```json lines extra
[ { "speaker": "host", "text": "ok" } ]
```
"#;
    assert_eq!(err(content), ScriptError::NotAScript);
}

#[test]
fn test13_unclosed_fence() {
    let content = r#"
```json speakers
{ "host": { "slot": "main" } }
```
```json lines
[ { "speaker": "host", "text": "ok" } ]
"#;
    assert_eq!(err(content), ScriptError::UnclosedFence);
}

#[test]
fn test14_json_syntax_error_reports_block_and_file_line() {
    let content = "line1\nline2\n```json speakers\n{ invalid json here\n```\n```json lines\n[ { \"speaker\": \"host\", \"text\": \"ok\" } ]\n```\n";
    match err(content) {
        ScriptError::InvalidJson { block, file_line, .. } => {
            assert_eq!(block, "speakers");
            assert_eq!(file_line, 4);
        }
        other => panic!("expected InvalidJson, got {other:?}"),
    }
}

#[test]
fn test15_bom_and_crlf_parses_ok() {
    let body = "```json speakers\r\n{ \"host\": { \"slot\": \"main\" } }\r\n```\r\n```json lines\r\n[ { \"speaker\": \"host\", \"text\": \"ok\" } ]\r\n```\r\n";
    let mut content = String::from('\u{feff}');
    content.push_str(body);
    let chunks = ok(&content);
    assert_eq!(chunks.len(), 1);
    assert_eq!(chunks[0].text, "ok");
}

#[test]
fn a_mark_and_carriage_returns_give_the_same_blocks() {
    for content in [
        "",
        "text\n```json speakers\n{\n}\n```\n\n```json lines\n[]\n```",
        "```json lines\n[]\n```\n```json lines\n[]\n```\n",
        "```json defaults\n{}\n",
    ] {
        let plain = extract_fenced_blocks(content);
        let returns = content.replace('\n', "\r\n");
        assert_eq!(extract_fenced_blocks(&returns), plain, "{content:?}");
        assert_eq!(extract_fenced_blocks(&format!("\u{feff}{content}")), plain, "{content:?}");
        assert_eq!(extract_fenced_blocks(&format!("\u{feff}{returns}")), plain, "{content:?}");
    }
}

#[test]
fn test16_invalid_speaker_id_whitespace_padded() {
    let content = r#"
```json speakers
{ " host": { "slot": "main" } }
```
```json lines
[ { "speaker": "host", "text": "ok" } ]
```
"#;
    assert_eq!(err(content), ScriptError::InvalidSpeakerId { id: " host".to_string() });
}

#[test]
fn test16_invalid_speaker_id_blank() {
    let content = r#"
```json speakers
{ "   ": { "slot": "main" } }
```
```json lines
[ { "speaker": "host", "text": "ok" } ]
```
"#;
    assert_eq!(err(content), ScriptError::InvalidSpeakerId { id: "   ".to_string() });
}

#[test]
fn test17_empty_lines_array() {
    let content = r#"
```json speakers
{ "host": { "slot": "main" } }
```
```json lines
[]
```
"#;
    assert_eq!(err(content), ScriptError::EmptyLines);
}

#[test]
fn test17_empty_block_body_is_invalid_json() {
    let content = r#"
```json speakers
```
```json lines
[ { "speaker": "host", "text": "ok" } ]
```
"#;
    match err(content) {
        ScriptError::InvalidJson { block, .. } => assert_eq!(block, "speakers"),
        other => panic!("expected InvalidJson, got {other:?}"),
    }
}

#[test]
fn test18_broken_speakers_with_missing_lines_is_invalid_json_not_not_a_script() {
    let content = r#"
```json speakers
{ this is not valid json
```
"#;
    match err(content) {
        ScriptError::InvalidJson { block, .. } => assert_eq!(block, "speakers"),
        other => panic!("expected InvalidJson, got {other:?}"),
    }
}

#[test]
fn test19_pause_ms_rounding() {
    assert_eq!(seconds_to_ms(0.333f64.to_bits()), 333);
    assert_eq!(seconds_to_ms(10.0f64.to_bits()), 10000);
    assert_eq!(seconds_to_ms(0.001f64.to_bits()), 1);
}

#[test]
fn test19_pause_ms_rounding_via_parse_script() {
    let content = r#"
```json speakers
{ "host": { "slot": "main" } }
```
```json lines
[ { "speaker": "host", "text": "ok", "pause_after": 0.333 } ]
```
"#;
    let chunks = ok(content);
    assert_eq!(chunks[0].pause_after_ms, 333);
}

#[test]
fn milliseconds_are_those_of_floating_point_arithmetic() {
    let mut cases = vec![0.0f64, -0.0, 5e-324, 1e-300, 0.0005, 0.0015, 0.4995, 1.0005, 9.9995];
    for i in 0..20001u32 {
        cases.push(f64::from(i) / 2000.0);
        cases.push(f64::from(i) / 2000.0 * 0.999_999_999_999_999_9);
    }
    for s in cases {
        assert_eq!(seconds_to_ms(s.to_bits()), (s * 1000.0).round() as u32, "{s:?}");
    }
}

#[test]
fn ranges_hold_their_ends_and_nothing_beyond() {
    for (s, inside) in [
        (0.0f64, true),
        (-0.0, true),
        (10.0, true),
        (10.000_000_000_000_002, false),
        (-5e-324, false),
        (f64::NAN, false),
        (f64::INFINITY, false),
    ] {
        assert_eq!(pause_in_range(s.to_bits()), inside, "{s:?}");
    }
    for (s, inside) in [
        (1.0f64, true),
        (-1.0, true),
        (0.0, true),
        (1.000_000_000_000_000_2, false),
        (-1.000_000_000_000_000_2, false),
        (f64::NAN, false),
        (f64::NEG_INFINITY, false),
    ] {
        assert_eq!(speed_in_range(s.to_bits()), inside, "{s:?}");
    }
}

#[test]
fn each_fault_is_told_in_its_own_words() {
    assert_eq!(
        ScriptError::OutOfRange { index: Some(2), key: "speed", value: number(1.5) }.message(),
        "lines[2].speed の値 1.5 が範囲外です"
    );
    assert_eq!(
        ScriptError::OutOfRange { index: None, key: "speed", value: number(-2.0) }.message(),
        "defaults.speed の値 -2 が範囲外です"
    );
    assert_eq!(
        ScriptError::CaptionTooLong { index: 0, len: 201 }.message(),
        "lines[0].caption が長すぎます (201 文字 / 上限 200 文字)"
    );
    assert_eq!(ScriptError::EmptyLines.message(), "lines 配列が空です");
    assert_eq!(
        ScriptError::InvalidSlot { speaker_id: "a".to_string(), slot: "x".to_string() }.message(),
        "話者 a の slot \"x\" は無効です (\"main\" または \"sub\" を指定してください)"
    );
    assert_eq!(
        ScriptError::DuplicateBlock("lines").message(),
        "```json lines ブロックが複数あります (1 つにまとめてください)"
    );
    assert_eq!(
        ScriptError::InvalidJson {
            block: "lines",
            line_in_block: 2,
            file_line: 9,
            detail: "x".to_string()
        }
        .message(),
        "```json lines ブロックの JSON が不正です (ブロック内 2 行目 / ファイル 9 行目): x"
    );
    assert_eq!(
        ScriptError::UnknownSpeaker { index: 1, speaker: "g".to_string() }.message(),
        "lines[1].speaker \"g\" は speakers に定義されていません"
    );
}

#[test]
fn a_caption_of_the_longest_length_is_kept() {
    let c = "あ".repeat(200);
    assert_eq!(normalize_caption(0, &Some(c.clone())), Ok(Some(c)));
    assert_eq!(normalize_caption(0, &None), Ok(None));
}
