use ugg::preprocess::{
    emoji_list, katakana_to_hiragana, match_irodori_emoji, needs_reading, split_emoji_segments,
    to_hiragana, to_hiragana_preserving_emoji, AccentPhrase, Mora, Segment,
};

fn text(s: &str) -> Segment {
    Segment::Text(s.to_string())
}

#[test]
fn convert_katakana_chars() {
    assert_eq!(katakana_to_hiragana('ア'), 'あ');
    assert_eq!(katakana_to_hiragana('ン'), 'ん');
    assert_eq!(katakana_to_hiragana('ヴ'), 'ゔ');
    assert_eq!(katakana_to_hiragana('a'), 'a');
    assert_eq!(katakana_to_hiragana('、'), '、');
}

#[test]
fn split_no_emoji_returns_single_text_segment() {
    assert_eq!(split_emoji_segments("こんにちは世界"), vec![text("こんにちは世界")]);
}

#[test]
fn split_single_emoji_mid_text() {
    assert_eq!(
        split_emoji_segments("こんにちは😊世界"),
        vec![text("こんにちは"), Segment::Emoji("😊"), text("世界")]
    );
}

#[test]
fn split_repeated_emoji_kept_consecutively() {
    assert_eq!(
        split_emoji_segments("🤧🤧ごめんね"),
        vec![Segment::Emoji("🤧"), Segment::Emoji("🤧"), text("ごめんね")]
    );
}

#[test]
fn split_zwj_sequence_not_broken_into_prefix() {
    let segs = split_emoji_segments("😮‍💨ふう");
    assert_eq!(segs, vec![Segment::Emoji("😮\u{200D}💨"), text("ふう")]);
}

#[test]
fn split_bare_gasp_emoji_still_matches() {
    assert_eq!(split_emoji_segments("😮えっ"), vec![Segment::Emoji("😮"), text("えっ")]);
}

#[test]
fn split_vs16_emojis_match_as_one() {
    assert_eq!(
        split_emoji_segments("待って⏸\u{FE0F}ね"),
        vec![text("待って"), Segment::Emoji("⏸\u{FE0F}"), text("ね")]
    );
    assert_eq!(
        split_emoji_segments("🌬\u{FE0F}はぁ"),
        vec![Segment::Emoji("🌬\u{FE0F}"), text("はぁ")]
    );
}

#[test]
fn split_emoji_only_input() {
    assert_eq!(split_emoji_segments("😭"), vec![Segment::Emoji("😭")]);
}

#[test]
fn split_unsupported_emoji_stays_in_text() {
    assert_eq!(split_emoji_segments("ピザ🍕たべたい"), vec![text("ピザ🍕たべたい")]);
}

#[test]
fn split_leading_and_trailing_emoji() {
    assert_eq!(
        split_emoji_segments("😊おはよう😴"),
        vec![Segment::Emoji("😊"), text("おはよう"), Segment::Emoji("😴")]
    );
}

#[test]
fn split_upstream_example_sentence() {
    assert_eq!(
        split_emoji_segments("うぅ…😭そんなに酷いこと、言わないで…😭"),
        vec![
            text("うぅ…"),
            Segment::Emoji("😭"),
            text("そんなに酷いこと、言わないで…"),
            Segment::Emoji("😭"),
        ]
    );
}

#[test]
fn split_roundtrip_reconstructs_original() {
    let cases = [
        "こんにちは😊世界",
        "🤧🤧ごめんね、風邪引いちゃってて🤧…大丈夫、ただの風邪だからすぐ治るよ🥺",
        "😮‍💨😮ダブル",
        "絵文字なしのふつうの文",
        "",
    ];
    for case in cases {
        let joined: String = split_emoji_segments(case)
            .iter()
            .map(|s| match s {
                Segment::Text(t) => t.as_str(),
                Segment::Emoji(e) => e,
            })
            .collect();
        assert_eq!(joined, case, "roundtrip failed for {case:?}");
    }
}

#[test]
fn match_longest_wins_regardless_of_order() {
    assert_eq!(match_irodori_emoji("😮‍💨x"), Some("😮\u{200D}💨"));
    assert_eq!(match_irodori_emoji("😮x"), Some("😮"));
    assert_eq!(match_irodori_emoji("abc"), None);
}

fn mora(v: &serde_json::Value) -> Mora {
    Mora { text: v["text"].as_str().unwrap().to_string() }
}

fn phrases(json: &str) -> Vec<AccentPhrase> {
    let v: serde_json::Value = serde_json::from_str(json).unwrap();
    v.as_array()
        .unwrap()
        .iter()
        .map(|p| AccentPhrase {
            moras: p["moras"].as_array().unwrap().iter().map(mora).collect(),
            accent: p["accent"].as_i64().unwrap(),
            pause_mora: if p["pause_mora"].is_null() { None } else { Some(mora(&p["pause_mora"])) },
        })
        .collect()
}

#[test]
fn parse_accent_phrases_json() {
    let json = r#"[
      {"moras":[{"text":"コ"},{"text":"ン"},{"text":"ニ"},{"text":"チ"},{"text":"ハ"}],"accent":5,"pause_mora":null},
      {"moras":[{"text":"セ"},{"text":"カ"},{"text":"イ"}],"accent":1,"pause_mora":{"text":""}}
    ]"#;
    assert_eq!(to_hiragana(&phrases(json)), "こんにちはせかい、");
}

#[test]
fn every_annotation_is_matched_as_a_whole() {
    let list = emoji_list();
    assert_eq!(list.len(), 45);
    for e in &list {
        assert_eq!(match_irodori_emoji(e), Some(*e));
        assert_eq!(split_emoji_segments(e), vec![Segment::Emoji(e)]);
    }
}

#[test]
fn annotations_stay_while_text_is_read_in_kana() {
    let segments = split_emoji_segments("世界😊  ");
    assert_eq!(segments.len(), 3);
    assert!(needs_reading(&segments[0]));
    assert!(!needs_reading(&segments[1]));
    assert!(!needs_reading(&segments[2]), "blank text is not read");
    let json = r#"[{"moras":[{"text":"セ"},{"text":"カ"},{"text":"イ"}],"accent":1,"pause_mora":null}]"#;
    let analyses = vec![Ok(phrases(json)), Ok(vec![]), Ok(vec![])];
    assert_eq!(to_hiragana_preserving_emoji(&segments, &analyses), Ok("せかい😊".to_string()));
}

#[test]
fn the_first_failed_analysis_is_reported() {
    let segments = split_emoji_segments("あ😊い");
    let analyses = vec![Ok(vec![]), Ok(vec![]), Err("解析に失敗".to_string())];
    assert_eq!(
        to_hiragana_preserving_emoji(&segments, &analyses),
        Err("解析に失敗".to_string())
    );
}
