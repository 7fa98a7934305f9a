use ugg::reader::{
    check_size, decode_bytes, decode_output_line, decode_script_file, decode_text_file,
    plain_text_chunks, split_long_chunks, split_reading_chunks, split_reading_chunks_with_max,
    tokenize, toks_to_string, ReadingChunk, VoiceSlot, DEFAULT_PAUSE_MS, MAX_CHUNK_CHARS,
    MAX_FILE_BYTES, UNKNOWN_ENCODING,
};

fn chunks(text: &str, max: usize) -> Vec<String> {
    split_reading_chunks_with_max(text, max)
}

#[test]
fn short_text_is_single_chunk() {
    assert_eq!(chunks("こんにちは。", 120), vec!["こんにちは。"]);
}

#[test]
fn multiple_short_sentences_pack_into_one_chunk() {
    assert_eq!(
        chunks("おはよう。こんにちは。こんばんは。", 120),
        vec!["おはよう。こんにちは。こんばんは。"]
    );
}

#[test]
fn sentence_that_overflows_moves_to_next_chunk() {
    assert_eq!(
        chunks("あああああ。いいいいい。", 10),
        vec!["あああああ。", "いいいいい。"]
    );
}

#[test]
fn long_sentence_splits_at_comma() {
    assert_eq!(
        chunks("ああああ、いいいいうう。", 8),
        vec!["ああああ、", "いいいいうう。"]
    );
}

#[test]
fn comma_less_long_sentence_is_force_split() {
    let text = "あいうえおかきくけこさし";
    assert_eq!(chunks(text, 5), vec!["あいうえお", "かきくけこ", "さし"]);
}

#[test]
fn force_split_never_breaks_zwj_emoji() {
    let text = "ああああ😮\u{200D}💨いいいい";
    let got = chunks(text, 5);
    assert_eq!(got, vec!["ああああ😮\u{200D}💨", "いいいい"]);
    for c in &got {
        assert!(!c.contains('\u{200D}') || c.contains("😮\u{200D}💨"));
    }
}

#[test]
fn emoji_inside_sentence_is_preserved() {
    assert_eq!(
        chunks("😊今日はいい天気だね。", 120),
        vec!["😊今日はいい天気だね。"]
    );
}

#[test]
fn trailing_emoji_stays_with_its_sentence() {
    assert_eq!(
        chunks("ひどいよ…😭ほんとにひどい。", 10),
        vec!["ひどいよ…😭", "ほんとにひどい。"]
    );
}

#[test]
fn blank_lines_are_dropped() {
    assert_eq!(chunks("一行目。\n\n   \n二行目。", 120), vec!["一行目。二行目。"]);
}

#[test]
fn newline_is_sentence_boundary() {
    assert_eq!(chunks("タイトル\n本文です。", 6), vec!["タイトル", "本文です。"]);
}

#[test]
fn consecutive_exclamations_stay_together() {
    assert_eq!(
        chunks("えええ！！！！すごい。", 120),
        vec!["えええ！！！！すごい。"]
    );
}

#[test]
fn all_sentence_end_marks_split() {
    let got = chunks("あ。い！う？え…お!か?", 2);
    assert_eq!(got, vec!["あ。", "い！", "う？", "え…", "お!", "か?"]);
}

#[test]
fn decode_utf8_plain_and_bom() {
    assert_eq!(decode_bytes(&"こんにちは".as_bytes().to_vec()).unwrap(), "こんにちは");
    let mut bom = vec![0xEF, 0xBB, 0xBF];
    bom.extend_from_slice("こんにちは".as_bytes());
    assert_eq!(decode_bytes(&bom).unwrap(), "こんにちは");
}

#[test]
fn decode_shift_jis() {
    let sjis: &[u8] = &[0x82, 0xB1, 0x82, 0xF1, 0x82, 0xC9, 0x82, 0xBF, 0x82, 0xCD];
    assert_eq!(decode_bytes(&sjis.to_vec()).unwrap(), "こんにちは");
}

#[test]
fn decode_text_file_rejects_non_txt_extension() {
    let err = decode_text_file(Some("pdf"), 5, &b"dummy".to_vec()).unwrap_err();
    assert!(err.contains(".txt"), "unexpected: {err}");
}

#[test]
fn test20_plain_text_chunks_have_default_meta() {
    let got = plain_text_chunks("おはよう。こんにちは。\n次の行。");
    assert!(!got.is_empty());
    for chunk in &got {
        assert_eq!(chunk.slot, VoiceSlot::Main);
        assert_eq!(f64::from_bits(chunk.speed_offset), 0.0);
        assert_eq!(chunk.caption, None);
        assert_eq!(chunk.pause_after_ms, DEFAULT_PAUSE_MS);
    }
}

#[test]
fn test21_split_long_chunks_duplicates_meta_and_zeroes_middle_pause() {
    let long_text = "あ。".repeat(70);
    let original = ReadingChunk {
        text: long_text.clone(),
        slot: VoiceSlot::Sub,
        speed_offset: 0.2f64.to_bits(),
        caption: Some("驚いて大声で".to_string()),
        pause_after_ms: 600,
    };
    let got = split_long_chunks(&vec![original]);
    assert!(got.len() > 1, "long chunk should be split into fragments");
    let last = got.len() - 1;
    for (i, frag) in got.iter().enumerate() {
        assert_eq!(frag.slot, VoiceSlot::Sub);
        assert_eq!(f64::from_bits(frag.speed_offset), 0.2);
        assert_eq!(frag.caption.as_deref(), Some("驚いて大声で"));
        if i == last {
            assert_eq!(frag.pause_after_ms, 600, "final fragment keeps original pause");
        } else {
            assert_eq!(frag.pause_after_ms, 0, "middle fragment pause must be 0");
        }
    }
    let rejoined: String = got.iter().map(|c| c.text.as_str()).collect();
    assert_eq!(rejoined, long_text);
}

#[test]
fn test21b_short_chunk_passes_through_unchanged() {
    let original = || ReadingChunk {
        text: "短い行。".to_string(),
        slot: VoiceSlot::Sub,
        speed_offset: 0.2f64.to_bits(),
        caption: Some("caption".to_string()),
        pause_after_ms: 600,
    };
    let got = split_long_chunks(&vec![original()]);
    assert_eq!(got, vec![original()]);
}

#[test]
fn test22_split_long_chunks_never_breaks_emoji_cluster() {
    let mut long_text = "あ".repeat(130);
    long_text.push_str("😮\u{200D}💨");
    long_text.push_str(&"い".repeat(10));
    let original = ReadingChunk {
        text: long_text,
        slot: VoiceSlot::Main,
        speed_offset: 0.0f64.to_bits(),
        caption: None,
        pause_after_ms: 500,
    };
    let got = split_long_chunks(&vec![original]);
    assert!(got.len() > 1);
    let joined: Vec<&str> = got.iter().map(|c| c.text.as_str()).collect();
    let holder_count = joined.iter().filter(|c| c.contains("😮\u{200D}💨")).count();
    assert_eq!(holder_count, 1, "emoji cluster must stay intact in exactly one fragment");
    for c in &joined {
        assert!(
            !c.contains('\u{200D}') || c.contains("😮\u{200D}💨"),
            "broken ZWJ fragment found: {c:?}"
        );
    }
}

#[test]
fn no_chunk_is_longer_than_the_limit() {
    let text = "むかしむかし、あるところに。おじいさんと、おばあさんが！".repeat(30);
    for c in split_reading_chunks(&text) {
        assert!(tokenize(&c).len() <= MAX_CHUNK_CHARS, "too long: {c}");
    }
}

#[test]
fn tokens_put_together_give_the_text_back() {
    for t in ["", "あ😊い", "😮\u{200D}💨🍕\n", "ab\u{200D}"] {
        assert_eq!(toks_to_string(&tokenize(t)), t);
    }
}

#[test]
fn bytes_in_neither_encoding_are_refused_in_a_file_but_shown_in_a_line() {
    let bytes: Vec<u8> = vec![0xFF, 0x41, 0x80];
    assert_eq!(decode_bytes(&bytes), Err(UNKNOWN_ENCODING.to_string()));
    assert!(decode_output_line(&bytes).contains('\u{FFFD}'));
}

#[test]
fn a_line_in_shift_jis_is_read() {
    let sjis: Vec<u8> = vec![0x82, 0xB1, 0x82, 0xF1];
    assert_eq!(decode_output_line(&sjis), "こん");
    assert_eq!(decode_output_line(&"こん".as_bytes().to_vec()), "こん");
}

#[test]
fn a_file_that_is_too_large_is_refused() {
    assert_eq!(check_size(MAX_FILE_BYTES), Ok(()));
    let err = check_size(MAX_FILE_BYTES + 1).unwrap_err();
    assert!(err.starts_with("ファイルが大きすぎます ("), "{err}");
    assert!(decode_script_file(MAX_FILE_BYTES + 1, &b"x".to_vec()).is_err());
    assert_eq!(decode_script_file(1, &b"x".to_vec()), Ok("x".to_string()));
    assert_eq!(decode_text_file(Some("TXT"), 1, &b"x".to_vec()), Ok("x".to_string()));
    assert!(decode_text_file(None, 1, &b"x".to_vec()).is_err());
}

#[test]
fn script_and_text_files_give_the_same_text() {
    for bytes in [&b""[..], b"x", "\u{feff}こん".as_bytes(), &[0x82, 0xA0], &[0xFF]] {
        let bytes = bytes.to_vec();
        for len in [0, MAX_FILE_BYTES, MAX_FILE_BYTES + 1] {
            let script = decode_script_file(len, &bytes);
            assert_eq!(decode_text_file(Some("Txt"), len, &bytes), script);
            assert_eq!(script.is_ok(), len <= MAX_FILE_BYTES && decode_bytes(&bytes).is_ok());
            assert!(decode_text_file(Some("md"), len, &bytes).is_err());
        }
    }
}

#[test]
fn a_file_in_utf_16_is_refused() {
    for bytes in [
        vec![0xFF, 0xFE, 0x42, 0x30],
        vec![0xFE, 0xFF, 0x30, 0x42],
        vec![0xFF, 0xFE],
        vec![0xFE, 0xFF],
    ] {
        let len = bytes.len() as u64;
        let refused = Err(UNKNOWN_ENCODING.to_string());
        assert_eq!(decode_bytes(&bytes), refused, "{bytes:?}");
        assert_eq!(decode_script_file(len, &bytes), refused, "{bytes:?}");
        assert_eq!(decode_text_file(Some("txt"), len, &bytes), refused, "{bytes:?}");
    }
    assert_eq!(decode_bytes(&vec![0xEF, 0xBB, 0xBF, 0x41]), Ok("A".to_string()));
    assert_eq!(decode_bytes(&vec![]), Ok(String::new()));
}
