//! Preparing a line for the voice engine: the emoji that annotate delivery are
//! kept where they stand, and everything between them is read out in kana.
use vstd::prelude::*;

use crate::text::{blank, chars_of, matches_here, push_text, slice_text};
use crate::text;

verus! {

/// The emoji that the voice model understands as delivery annotations.
///
/// One of them, an exhaling face, is a joined sequence that begins with
/// another one; a match is therefore always the longest one.
#[verifier::opaque]
pub open spec fn emojis() -> Seq<Seq<char>> {
    seq![
        "👂"@,
        "😮\u{200D}💨"@,
        "⏸\u{FE0F}"@,
        "🤭"@,
        "🥵"@,
        "📢"@,
        "😏"@,
        "🥺"@,
        "🌬\u{FE0F}"@,
        "😮"@,
        "👅"@,
        "💋"@,
        "🫶"@,
        "😭"@,
        "😱"@,
        "😪"@,
        "😴"@,
        "⏩"@,
        "📞"@,
        "🐢"@,
        "🥤"@,
        "🤧"@,
        "😒"@,
        "😰"@,
        "😆"@,
        "💥"@,
        "😠"@,
        "😲"@,
        "🥱"@,
        "😖"@,
        "😟"@,
        "🫣"@,
        "🙄"@,
        "😊"@,
        "😎"@,
        "👌"@,
        "🙏"@,
        "🥴"@,
        "🎵"@,
        "🤐"@,
        "😌"@,
        "🤔"@,
        "💪"@,
        "👃"@,
        "📖"@,
    ]
}

/// The annotation emoji, in the order of `emojis`.
pub fn emoji_list() -> (r: Vec<&'static str>)
    ensures
        r@.len() == emojis().len(),
        forall|k: int| 0 <= k < r@.len() ==> (#[trigger] r@[k])@ == emojis()[k],
{
    proof {
        reveal(emojis);
    }
    vec![
        "👂",
        "😮\u{200D}💨",
        "⏸\u{FE0F}",
        "🤭",
        "🥵",
        "📢",
        "😏",
        "🥺",
        "🌬\u{FE0F}",
        "😮",
        "👅",
        "💋",
        "🫶",
        "😭",
        "😱",
        "😪",
        "😴",
        "⏩",
        "📞",
        "🐢",
        "🥤",
        "🤧",
        "😒",
        "😰",
        "😆",
        "💥",
        "😠",
        "😲",
        "🥱",
        "😖",
        "😟",
        "🫣",
        "🙄",
        "😊",
        "😎",
        "👌",
        "🙏",
        "🥴",
        "🎵",
        "🤐",
        "😌",
        "🤔",
        "💪",
        "👃",
        "📖",
    ]
}

/// Every annotation has at least one character.
pub proof fn lemma_emojis_nonempty()
    ensures
        emojis().len() == 45,
        forall|k: int| 0 <= k < emojis().len() ==> (#[trigger] emojis()[k]).len() > 0,
{
    reveal(emojis);
    reveal_strlit("👂");
    reveal_strlit("😮\u{200D}💨");
    reveal_strlit("⏸\u{FE0F}");
    reveal_strlit("🤭");
    reveal_strlit("🥵");
    reveal_strlit("📢");
    reveal_strlit("😏");
    reveal_strlit("🥺");
    reveal_strlit("🌬\u{FE0F}");
    reveal_strlit("😮");
    reveal_strlit("👅");
    reveal_strlit("💋");
    reveal_strlit("🫶");
    reveal_strlit("😭");
    reveal_strlit("😱");
    reveal_strlit("😪");
    reveal_strlit("😴");
    reveal_strlit("⏩");
    reveal_strlit("📞");
    reveal_strlit("🐢");
    reveal_strlit("🥤");
    reveal_strlit("🤧");
    reveal_strlit("😒");
    reveal_strlit("😰");
    reveal_strlit("😆");
    reveal_strlit("💥");
    reveal_strlit("😠");
    reveal_strlit("😲");
    reveal_strlit("🥱");
    reveal_strlit("😖");
    reveal_strlit("😟");
    reveal_strlit("🫣");
    reveal_strlit("🙄");
    reveal_strlit("😊");
    reveal_strlit("😎");
    reveal_strlit("👌");
    reveal_strlit("🙏");
    reveal_strlit("🥴");
    reveal_strlit("🎵");
    reveal_strlit("🤐");
    reveal_strlit("😌");
    reveal_strlit("🤔");
    reveal_strlit("💪");
    reveal_strlit("👃");
    reveal_strlit("📖");
}

/// No annotation holds white space.
pub proof fn lemma_emojis_show()
    ensures
        forall|k: int| 0 <= k < emojis().len() ==> !text::is_white((#[trigger] emojis()[k])[0]),
        forall|k: int, j: int|
            0 <= k < emojis().len() && 0 <= j < emojis()[k].len() ==> !text::is_white(
                #[trigger] emojis()[k][j],
            ),
{
    reveal(emojis);
    reveal_strlit("👂");
    reveal_strlit("😮\u{200D}💨");
    reveal_strlit("⏸\u{FE0F}");
    reveal_strlit("🤭");
    reveal_strlit("🥵");
    reveal_strlit("📢");
    reveal_strlit("😏");
    reveal_strlit("🥺");
    reveal_strlit("🌬\u{FE0F}");
    reveal_strlit("😮");
    reveal_strlit("👅");
    reveal_strlit("💋");
    reveal_strlit("🫶");
    reveal_strlit("😭");
    reveal_strlit("😱");
    reveal_strlit("😪");
    reveal_strlit("😴");
    reveal_strlit("⏩");
    reveal_strlit("📞");
    reveal_strlit("🐢");
    reveal_strlit("🥤");
    reveal_strlit("🤧");
    reveal_strlit("😒");
    reveal_strlit("😰");
    reveal_strlit("😆");
    reveal_strlit("💥");
    reveal_strlit("😠");
    reveal_strlit("😲");
    reveal_strlit("🥱");
    reveal_strlit("😖");
    reveal_strlit("😟");
    reveal_strlit("🫣");
    reveal_strlit("🙄");
    reveal_strlit("😊");
    reveal_strlit("😎");
    reveal_strlit("👌");
    reveal_strlit("🙏");
    reveal_strlit("🥴");
    reveal_strlit("🎵");
    reveal_strlit("🤐");
    reveal_strlit("😌");
    reveal_strlit("🤔");
    reveal_strlit("💪");
    reveal_strlit("👃");
    reveal_strlit("📖");
}

/// The position in `emojis`, among its first `k`, of the longest one that
/// stands in `s` at `i`; -1 where none does.
pub open spec fn best_emoji(s: Seq<char>, i: int, k: int) -> int
    decreases k,
{
    if k <= 0 {
        -1
    } else {
        let m = best_emoji(s, i, k - 1);
        if text::matches_at(s, i, emojis()[k - 1]) && (m < 0 || emojis()[m].len()
            <= emojis()[k - 1].len()) {
            k - 1
        } else {
            m
        }
    }
}

/// The annotation that stands in `s` at `i`, by its position in `emojis`: the
/// longest one; -1 where none stands there.
pub open spec fn emoji_at(s: Seq<char>, i: int) -> int {
    best_emoji(s, i, emojis().len() as int)
}

proof fn lemma_best_emoji(s: Seq<char>, i: int, k: int)
    requires
        0 <= k <= emojis().len(),
    ensures
        -1 <= best_emoji(s, i, k) < k,
        best_emoji(s, i, k) >= 0 ==> text::matches_at(s, i, emojis()[best_emoji(s, i, k)]),
        forall|j: int|
            0 <= j < k && #[trigger] text::matches_at(s, i, emojis()[j]) ==> best_emoji(s, i, k) >= 0
                && emojis()[j].len() <= emojis()[best_emoji(s, i, k)].len(),
    decreases k,
{
    if k > 0 {
        lemma_best_emoji(s, i, k - 1);
    }
}

/// Of the annotations that stand at a position, the longest is taken; where
/// one stands there, one is taken.
pub proof fn longest_annotation_wins(s: Seq<char>, i: int, j: int)
    requires
        0 <= j < emojis().len(),
        text::matches_at(s, i, emojis()[j]),
    ensures
        0 <= emoji_at(s, i) < emojis().len(),
        text::matches_at(s, i, emojis()[emoji_at(s, i)]),
        emojis()[j].len() <= emojis()[emoji_at(s, i)].len(),
{
    lemma_best_emoji(s, i, emojis().len() as int);
}

pub proof fn lemma_emoji_at(s: Seq<char>, i: int)
    ensures
        -1 <= emoji_at(s, i) < emojis().len(),
        emoji_at(s, i) >= 0 ==> text::matches_at(s, i, emojis()[emoji_at(s, i)])
            && emojis()[emoji_at(s, i)].len() > 0,
{
    lemma_best_emoji(s, i, emojis().len() as int);
    lemma_emojis_nonempty();
}

/// The annotation that stands at position `i`, by its position in the list.
pub fn find_emoji(cs: &Vec<char>, i: usize, list: &Vec<&'static str>) -> (r: Option<usize>)
    requires
        i <= cs@.len(),
        list@.len() == emojis().len(),
        forall|k: int| 0 <= k < list@.len() ==> (#[trigger] list@[k])@ == emojis()[k],
    ensures
        r matches Some(k) ==> k as int == emoji_at(cs@, i as int),
        r is None ==> emoji_at(cs@, i as int) == -1,
{
    let mut best: Option<usize> = None;
    let mut best_len: usize = 0;
    let mut k: usize = 0;
    while k < list.len()
        invariant
            k <= list@.len(),
            i <= cs@.len(),
            list@.len() == emojis().len(),
            forall|k: int| 0 <= k < list@.len() ==> (#[trigger] list@[k])@ == emojis()[k],
            best matches Some(m) ==> m < k && m as int == best_emoji(cs@, i as int, k as int)
                && best_len == emojis()[m as int].len(),
            best is None ==> best_emoji(cs@, i as int, k as int) == -1,
        decreases list@.len() - k,
    {
        let e = chars_of(list[k]);
        if matches_here(cs, i, &e) && (best.is_none() || best_len <= e.len()) {
            best = Some(k);
            best_len = e.len();
        }
        k += 1;
    }
    best
}

/// The annotation emoji that the text begins with: the longest one.
pub fn match_irodori_emoji(s: &str) -> (r: Option<&'static str>)
    ensures
        r matches Some(e) ==> emoji_at(s@, 0) >= 0 && e@ == emojis()[emoji_at(s@, 0)],
        r is None ==> emoji_at(s@, 0) == -1,
{
    let list = emoji_list();
    let cs = chars_of(s);
    proof {
        lemma_emoji_at(s@, 0);
    }
    match find_emoji(&cs, 0, &list) {
        Some(k) => Some(list[k]),
        None => None,
    }
}

/// A stretch of a line: text to be read out in kana, or an annotation.
#[derive(Debug, PartialEq)]
pub enum Segment {
    Text(String),
    Emoji(&'static str),
}

/// What a `Segment` stands for.
pub enum Piece {
    Text(Seq<char>),
    Emoji(Seq<char>),
}

impl View for Segment {
    type V = Piece;

    open spec fn view(&self) -> Piece {
        match self {
            Segment::Text(t) => Piece::Text(t@),
            Segment::Emoji(e) => Piece::Emoji(e@),
        }
    }
}

/// The characters of a piece.
pub open spec fn piece_text(p: Piece) -> Seq<char> {
    match p {
        Piece::Text(t) => t,
        Piece::Emoji(e) => e,
    }
}

/// What a sequence of segments stands for.
pub open spec fn pieces(v: Seq<Segment>) -> Seq<Piece> {
    Seq::new(v.len(), |i: int| v[i]@)
}

/// The first position at or after `i` where an annotation stands, or the end.
pub open spec fn run_end(s: Seq<char>, i: int) -> int
    decreases s.len() - i,
    when 0 <= i <= s.len()
{
    if i == s.len() || emoji_at(s, i) >= 0 {
        i
    } else {
        run_end(s, i + 1)
    }
}

proof fn lemma_run_end(s: Seq<char>, i: int)
    requires
        0 <= i <= s.len(),
    ensures
        i <= run_end(s, i) <= s.len(),
    decreases s.len() - i,
{
    if i < s.len() && emoji_at(s, i) < 0 {
        lemma_run_end(s, i + 1);
    }
}

/// The segments of the text from position `i` on: each annotation by itself,
/// and each longest stretch without one.
pub open spec fn segments_from(s: Seq<char>, i: int) -> Seq<Piece>
    decreases s.len() - i,
    when 0 <= i <= s.len()
    via segments_from_terminates
{
    let k = emoji_at(s, i);
    if i == s.len() {
        Seq::empty()
    } else if k >= 0 {
        seq![Piece::Emoji(emojis()[k])] + segments_from(s, i + emojis()[k].len())
    } else {
        let e = run_end(s, i);
        seq![Piece::Text(s.subrange(i, e))] + segments_from(s, e)
    }
}

#[via_fn]
proof fn segments_from_terminates(s: Seq<char>, i: int) {
    lemma_emoji_at(s, i);
    if i < s.len() && emoji_at(s, i) < 0 {
        lemma_run_end(s, i + 1);
    }
}

/// The segments of a text.
pub open spec fn segments_of(s: Seq<char>) -> Seq<Piece> {
    segments_from(s, 0)
}

/// Splits a text at its annotation emoji.
pub fn split_emoji_segments(text: &str) -> (r: Vec<Segment>)
    ensures
        pieces(r@) == segments_of(text@),
{
    let list = emoji_list();
    let cs = chars_of(text);
    let mut out: Vec<Segment> = Vec::new();
    let mut i: usize = 0;
    assert(pieces(out@) + segments_from(text@, 0) =~= segments_of(text@));
    while i < cs.len()
        invariant
            i <= cs@.len(),
            cs@ == text@,
            list@.len() == emojis().len(),
            forall|k: int| 0 <= k < list@.len() ==> (#[trigger] list@[k])@ == emojis()[k],
            pieces(out@) + segments_from(text@, i as int) == segments_of(text@),
        decreases cs@.len() - i,
    {
        let ghost before = pieces(out@);
        proof {
            lemma_emoji_at(text@, i as int);
        }
        match find_emoji(&cs, i, &list) {
            Some(k) => {
                let e = list[k];
                let n: usize = chars_of(e).len();
                out.push(Segment::Emoji(e));
                assert(pieces(out@) =~= before.push(Piece::Emoji(e@)));
                assert(before + (seq![Piece::Emoji(e@)] + segments_from(text@, i + n)) =~= pieces(
                    out@,
                ) + segments_from(text@, i + n));
                i += n;
            },
            None => {
                let mut e: usize = i + 1;
                while e < cs.len() && find_emoji(&cs, e, &list).is_none()
                    invariant
                        i < e <= cs@.len(),
                        cs@ == text@,
                        list@.len() == emojis().len(),
                        forall|k: int|
                            0 <= k < list@.len() ==> (#[trigger] list@[k])@ == emojis()[k],
                        run_end(text@, i as int) == run_end(text@, e as int),
                    decreases cs@.len() - e,
                {
                    e += 1;
                }
                assert(e as int == run_end(text@, i as int));
                let t = slice_text(&cs, i, e);
                out.push(Segment::Text(t));
                assert(pieces(out@) =~= before.push(Piece::Text(t@)));
                assert(before + (seq![Piece::Text(t@)] + segments_from(text@, e as int))
                    =~= pieces(out@) + segments_from(text@, e as int));
                i = e;
            },
        }
    }
    assert(pieces(out@) + Seq::<Piece>::empty() =~= pieces(out@));
    out
}

/// The pieces' characters, one after the other.
pub open spec fn joined(p: Seq<Piece>) -> Seq<char>
    decreases p.len(),
{
    if p.len() == 0 {
        Seq::empty()
    } else {
        piece_text(p[0]) + joined(p.skip(1))
    }
}

proof fn lemma_segments_rejoin_from(s: Seq<char>, i: int)
    requires
        0 <= i <= s.len(),
    ensures
        joined(segments_from(s, i)) == s.skip(i),
    decreases s.len() - i,
{
    let k = emoji_at(s, i);
    lemma_emoji_at(s, i);
    if i < s.len() {
        if k >= 0 {
            let n = emojis()[k].len();
            lemma_segments_rejoin_from(s, i + n);
            let all = segments_from(s, i);
            assert(all.skip(1) =~= segments_from(s, i + n));
            assert(s.skip(i) =~= emojis()[k] + s.skip(i + n));
        } else {
            let e = run_end(s, i);
            lemma_run_end(s, i + 1);
            lemma_segments_rejoin_from(s, e);
            let all = segments_from(s, i);
            assert(all.skip(1) =~= segments_from(s, e));
            assert(s.skip(i) =~= s.subrange(i, e) + s.skip(e));
        }
    } else {
        assert(s.skip(i) =~= Seq::<char>::empty());
    }
}

/// Put back together, the segments of a text are that text.
pub proof fn segments_rejoin(s: Seq<char>)
    ensures
        joined(segments_of(s)) == s,
{
    lemma_segments_rejoin_from(s, 0);
    assert(s.skip(0) =~= s);
}

/// One katakana letter in hiragana; any other character as it is.
pub open spec fn hiragana(c: char) -> char {
    if 0x30A1 <= c as int <= 0x30F6 {
        (c as int - 0x60) as char
    } else {
        c
    }
}

/// Turns a katakana letter into the hiragana letter of the same sound; any
/// other character stays as it is.
pub fn katakana_to_hiragana(c: char) -> (r: char)
    ensures
        r == hiragana(c),
{
    let code: u32 = c as u32;
    if 0x30A1 <= code && code <= 0x30F6 {
        match char::from_u32(code - 0x60) {
            Some(h) => h,
            None => c,
        }
    } else {
        c
    }
}

/// One unit of sound, written in katakana; a pause has no text.
#[derive(Debug)]
pub struct Mora {
    pub text: String,
}

/// A phrase of the reading: its sounds, and the pause behind it if there is one.
#[derive(Debug)]
pub struct AccentPhrase {
    pub moras: Vec<Mora>,
    pub accent: i64,
    pub pause_mora: Option<Mora>,
}

/// A text with each of its characters in hiragana.
pub open spec fn in_hiragana(s: Seq<char>) -> Seq<char> {
    Seq::new(s.len(), |i: int| hiragana(s[i]))
}

/// The kana of the sounds from the `j`-th on.
pub open spec fn moras_kana(m: Seq<Mora>, j: int) -> Seq<char>
    decreases m.len() - j,
    when 0 <= j <= m.len()
{
    if j == m.len() {
        Seq::empty()
    } else {
        in_hiragana(m[j].text@) + moras_kana(m, j + 1)
    }
}

/// The kana of a phrase, with a comma where it ends in a pause.
pub open spec fn phrase_kana(p: AccentPhrase) -> Seq<char> {
    moras_kana(p.moras@, 0) + (if p.pause_mora is Some {
        seq!['、']
    } else {
        Seq::empty()
    })
}

/// The kana of the phrases from the `j`-th on.
pub open spec fn phrases_kana(p: Seq<AccentPhrase>, j: int) -> Seq<char>
    decreases p.len() - j,
    when 0 <= j <= p.len()
{
    if j == p.len() {
        Seq::empty()
    } else {
        phrase_kana(p[j]) + phrases_kana(p, j + 1)
    }
}

/// Appends a text with each of its characters in hiragana.
fn push_hiragana(out: &mut String, s: &str)
    ensures
        final(out)@ == old(out)@ + in_hiragana(s@),
{
    let cs = chars_of(s);
    let mut i: usize = 0;
    let ghost before = out@;
    while i < cs.len()
        invariant
            i <= cs@.len(),
            cs@ == s@,
            out@ == before + in_hiragana(s@).subrange(0, i as int),
        decreases cs@.len() - i,
    {
        out.push(katakana_to_hiragana(cs[i]));
        i += 1;
        assert(out@ =~= before + in_hiragana(s@).subrange(0, i as int));
    }
    assert(out@ =~= before + in_hiragana(s@));
}

/// Appends the kana of a phrase.
fn push_phrase(out: &mut String, phrase: &AccentPhrase)
    ensures
        final(out)@ == old(out)@ + phrase_kana(*phrase),
{
    let ghost before = out@;
    let mut j: usize = 0;
    while j < phrase.moras.len()
        invariant
            j <= phrase.moras@.len(),
            out@ + moras_kana(phrase.moras@, j as int) == before + moras_kana(phrase.moras@, 0),
        decreases phrase.moras@.len() - j,
    {
        let ghost prior = out@;
        push_hiragana(out, phrase.moras[j].text.as_str());
        assert(out@ + moras_kana(phrase.moras@, j + 1) =~= prior + moras_kana(
            phrase.moras@,
            j as int,
        ));
        j += 1;
    }
    assert(out@ =~= before + moras_kana(phrase.moras@, 0));
    if phrase.pause_mora.is_some() {
        out.push('、');
    }
    assert(out@ =~= before + phrase_kana(*phrase));
}

/// The reading of an analysed text: its sounds in hiragana, with a comma at
/// each pause.
pub fn to_hiragana(phrases: &Vec<AccentPhrase>) -> (r: String)
    ensures
        r@ == phrases_kana(phrases@, 0),
{
    let mut out = String::new();
    let mut j: usize = 0;
    assert(out@ + phrases_kana(phrases@, 0) =~= phrases_kana(phrases@, 0));
    while j < phrases.len()
        invariant
            j <= phrases@.len(),
            out@ + phrases_kana(phrases@, j as int) == phrases_kana(phrases@, 0),
        decreases phrases@.len() - j,
    {
        let ghost prior = out@;
        push_phrase(&mut out, &phrases[j]);
        assert(out@ + phrases_kana(phrases@, j + 1) =~= prior + phrases_kana(phrases@, j as int));
        j += 1;
    }
    assert(out@ + Seq::<char>::empty() =~= out@);
    out
}

/// A segment that is read out: text with something in it.
pub open spec fn is_read(p: Piece) -> bool {
    p matches Piece::Text(t) && !text::is_blank(t)
}

/// Whether the segment has to be analysed for its reading.
pub fn needs_reading(segment: &Segment) -> (r: bool)
    ensures
        r == is_read(segment@),
{
    match segment {
        Segment::Text(t) => !blank(t.as_str()),
        Segment::Emoji(_) => false,
    }
}

/// The outcome of analysing one segment.
pub type Analysis = Result<Vec<AccentPhrase>, String>;

/// The line from the `i`-th segment on, or the message of the first analysis
/// that failed: annotations stay, text is replaced by its reading, and text
/// that is blank goes.
pub open spec fn line_reading(p: Seq<Piece>, a: Seq<Analysis>, i: int) -> Result<
    Seq<char>,
    Seq<char>,
>
    decreases p.len() - i,
    when 0 <= i <= p.len()
{
    if i == p.len() {
        Ok(Seq::empty())
    } else if is_read(p[i]) && a[i] is Err {
        Err(a[i]->Err_0@)
    } else {
        let head = if p[i] is Emoji {
            piece_text(p[i])
        } else if is_read(p[i]) {
            phrases_kana(a[i]->Ok_0@, 0)
        } else {
            Seq::empty()
        };
        match line_reading(p, a, i + 1) {
            Ok(rest) => Ok(head + rest),
            Err(e) => Err(e),
        }
    }
}

/// What a result of strings says.
pub open spec fn result_text(r: Result<String, String>) -> Result<Seq<char>, Seq<char>> {
    match r {
        Ok(t) => Ok(t@),
        Err(e) => Err(e@),
    }
}

/// Puts a line together from its segments and the analyses of those that are
/// read out. One failed analysis fails the line.
pub fn to_hiragana_preserving_emoji(
    segments: &Vec<Segment>,
    analyses: &Vec<Result<Vec<AccentPhrase>, String>>,
) -> (r: Result<String, String>)
    requires
        analyses@.len() == segments@.len(),
    ensures
        result_text(r) == line_reading(pieces(segments@), analyses@, 0),
{
    let ghost p = pieces(segments@);
    let mut out = String::new();
    let mut i: usize = 0;
    while i < segments.len()
        invariant
            i <= segments@.len(),
            analyses@.len() == segments@.len(),
            p == pieces(segments@),
            line_reading(p, analyses@, 0) == (match line_reading(p, analyses@, i as int) {
                Ok(rest) => Ok::<Seq<char>, Seq<char>>(out@ + rest),
                Err(e) => Err(e),
            }),
        decreases segments@.len() - i,
    {
        let ghost prior = out@;
        assert(p[i as int] == segments@[i as int]@);
        match &segments[i] {
            Segment::Emoji(e) => {
                push_text(&mut out, e);
                assert forall|rest: Seq<char>| #[trigger] (out@ + rest) == prior + (e@ + rest) by {
                    assert(out@ + rest =~= prior + (e@ + rest));
                }
            },
            Segment::Text(t) => {
                if !blank(t.as_str()) {
                    match &analyses[i] {
                        Ok(phrases) => {
                            let kana = to_hiragana(phrases);
                            push_text(&mut out, kana.as_str());
                            assert forall|rest: Seq<char>| #[trigger]
                                (out@ + rest) == prior + (kana@ + rest) by {
                                assert(out@ + rest =~= prior + (kana@ + rest));
                            }
                        },
                        Err(e) => {
                            return Err(e.clone());
                        },
                    }
                } else {
                    assert forall|rest: Seq<char>| #[trigger]
                        (out@ + rest) == prior + (Seq::<char>::empty() + rest) by {
                        assert(out@ + rest =~= prior + (Seq::<char>::empty() + rest));
                    }
                }
            },
        }
        i += 1;
    }
    assert(out@ + Seq::<char>::empty() =~= out@);
    Ok(out)
}

/// The texts of sounds, one after the other.
pub open spec fn moras_text(m: Seq<Mora>) -> Seq<char> {
    Seq::new(m.len(), |k: int| m[k].text@).flatten()
}

proof fn lemma_flatten_front(s: Seq<Seq<char>>)
    requires
        s.len() > 0,
    ensures
        s.flatten() == s[0] + s.skip(1).flatten(),
{
    assert(s.drop_first() =~= s.skip(1));
}

proof fn lemma_moras_kana(m: Seq<Mora>, j: int)
    requires
        0 <= j <= m.len(),
    ensures
        moras_kana(m, j) == in_hiragana(moras_text(m.skip(j))),
    decreases m.len() - j,
{
    let t = Seq::new(m.skip(j).len(), |k: int| m.skip(j)[k].text@);
    if j == m.len() {
        assert(t =~= Seq::<Seq<char>>::empty());
        assert(moras_text(m.skip(j)) =~= Seq::<char>::empty());
        assert(in_hiragana(Seq::empty()) =~= Seq::<char>::empty());
    } else {
        lemma_moras_kana(m, j + 1);
        let rest = Seq::new(m.skip(j + 1).len(), |k: int| m.skip(j + 1)[k].text@);
        assert(t.skip(1) =~= rest);
        assert(t[0] == m[j].text@);
        lemma_flatten_front(t);
        assert(in_hiragana(moras_text(m.skip(j))) =~= in_hiragana(m[j].text@) + in_hiragana(
            moras_text(m.skip(j + 1)),
        ));
    }
}

/// The reading of a phrase has one character for each character of its sounds, in
/// their order, each katakana letter as the hiragana letter of the same sound and
/// any other character as it is; behind them stands a comma where the phrase ends
/// in a pause, and nothing else.
pub proof fn every_sound_is_read(p: AccentPhrase, k: int)
    ensures
        phrase_kana(p).len() == moras_text(p.moras@).len() + (if p.pause_mora is Some {
            1int
        } else {
            0int
        }),
        0 <= k < moras_text(p.moras@).len() && 0x30A1 <= moras_text(p.moras@)[k] as int <= 0x30F6
            ==> phrase_kana(p)[k] as int == moras_text(p.moras@)[k] as int - 0x60,
        0 <= k < moras_text(p.moras@).len() && !(0x30A1 <= moras_text(p.moras@)[k] as int
            <= 0x30F6) ==> phrase_kana(p)[k] == moras_text(p.moras@)[k],
        p.pause_mora is Some ==> phrase_kana(p).last() == '、',
{
    lemma_moras_kana(p.moras@, 0);
    assert(p.moras@.skip(0) =~= p.moras@);
}

/// The reading of a text is the reading of its phrases, one after the other.
pub proof fn phrases_are_read_in_order(p: Seq<AccentPhrase>, j: int)
    requires
        0 <= j <= p.len(),
    ensures
        phrases_kana(p, j) == Seq::new(
            (p.len() - j) as nat,
            |k: int| phrase_kana(p[j + k]),
        ).flatten(),
    decreases p.len() - j,
{
    let t = Seq::new((p.len() - j) as nat, |k: int| phrase_kana(p[j + k]));
    if j == p.len() {
        assert(t =~= Seq::<Seq<char>>::empty());
    } else {
        phrases_are_read_in_order(p, j + 1);
        let rest = Seq::new((p.len() - (j + 1)) as nat, |k: int| phrase_kana(p[j + 1 + k]));
        assert(t.skip(1) =~= rest);
        lemma_flatten_front(t);
        assert(t[0] == phrase_kana(p[j]));
    }
}

/// One segment by itself: an annotation stays as it is, text becomes its reading,
/// text that is blank goes, and an analysis that failed fails the line with its
/// message; that of a segment which is not read out does not matter.
pub proof fn a_segment_by_itself(p: Piece, a: Analysis)
    ensures
        p matches Piece::Emoji(e) ==> line_reading(seq![p], seq![a], 0) == Ok::<
            Seq<char>,
            Seq<char>,
        >(e),
        p matches Piece::Text(t) ==> text::is_blank(t) ==> line_reading(seq![p], seq![a], 0) == Ok::<
            Seq<char>,
            Seq<char>,
        >(Seq::empty()),
        p matches Piece::Text(t) ==> !text::is_blank(t) ==> a is Ok ==> line_reading(
            seq![p],
            seq![a],
            0,
        ) == Ok::<Seq<char>, Seq<char>>(phrases_kana(a->Ok_0@, 0)),
        p matches Piece::Text(t) ==> !text::is_blank(t) ==> a is Err ==> line_reading(
            seq![p],
            seq![a],
            0,
        ) == Err::<Seq<char>, Seq<char>>(a->Err_0@),
{
    reveal_with_fuel(line_reading, 2);
    let r = line_reading(seq![p], seq![a], 0);
    if r is Ok {
        assert(r->Ok_0 + Seq::<char>::empty() =~= r->Ok_0);
        if p is Emoji {
            assert(piece_text(p) + Seq::<char>::empty() =~= piece_text(p));
        }
        if is_read(p) {
            assert(phrases_kana(a->Ok_0@, 0) + Seq::<char>::empty() =~= phrases_kana(a->Ok_0@, 0));
        }
        assert(Seq::<char>::empty() + Seq::<char>::empty() =~= Seq::<char>::empty());
    }
}

proof fn lemma_line_parts(p: Seq<Piece>, a: Seq<Analysis>, q: Seq<Piece>, b: Seq<Analysis>, i: int)
    requires
        p.len() == a.len(),
        q.len() == b.len(),
        0 <= i <= p.len(),
    ensures
        line_reading(p + q, a + b, i) == (match line_reading(p, a, i) {
            Err(e) => Err::<Seq<char>, Seq<char>>(e),
            Ok(x) => match line_reading(q, b, 0) {
                Err(e) => Err(e),
                Ok(y) => Ok(x + y),
            },
        }),
    decreases p.len() - i,
{
    if i < p.len() {
        lemma_line_parts(p, a, q, b, i + 1);
        assert((p + q)[i] == p[i]);
        assert((a + b)[i] == a[i]);
        let rest = line_reading(p, a, i + 1);
        let more = line_reading(q, b, 0);
        if line_reading(p + q, a + b, i) is Ok {
            let head = if p[i] is Emoji {
                piece_text(p[i])
            } else if is_read(p[i]) {
                phrases_kana(a[i]->Ok_0@, 0)
            } else {
                Seq::empty()
            };
            assert(head + (rest->Ok_0 + more->Ok_0) =~= head + rest->Ok_0 + more->Ok_0);
        }
    } else {
        lemma_line_shift(p, a, q, b, 0);
        if line_reading(q, b, 0) is Ok {
            assert(Seq::<char>::empty() + line_reading(q, b, 0)->Ok_0 =~= line_reading(
                q,
                b,
                0,
            )->Ok_0);
        }
    }
}

proof fn lemma_line_shift(p: Seq<Piece>, a: Seq<Analysis>, q: Seq<Piece>, b: Seq<Analysis>, k: int)
    requires
        p.len() == a.len(),
        q.len() == b.len(),
        0 <= k <= q.len(),
    ensures
        line_reading(p + q, a + b, p.len() + k) == line_reading(q, b, k),
    decreases q.len() - k,
{
    if k < q.len() {
        lemma_line_shift(p, a, q, b, k + 1);
        assert((p + q)[p.len() + k] == q[k]);
        assert((a + b)[p.len() + k] == b[k]);
    }
}

/// A line is read part by part: what its first segments give stands before what
/// the others give, and the first failure among them is that of the line.
pub proof fn a_line_is_read_part_by_part(
    p: Seq<Piece>,
    a: Seq<Analysis>,
    q: Seq<Piece>,
    b: Seq<Analysis>,
)
    requires
        p.len() == a.len(),
        q.len() == b.len(),
    ensures
        line_reading(p, a, 0) is Err ==> line_reading(p + q, a + b, 0) == line_reading(p, a, 0),
        line_reading(p, a, 0) is Ok && line_reading(q, b, 0) is Err ==> line_reading(
            p + q,
            a + b,
            0,
        ) == line_reading(q, b, 0),
        line_reading(p, a, 0) is Ok && line_reading(q, b, 0) is Ok ==> line_reading(p + q, a + b, 0)
            == Ok::<Seq<char>, Seq<char>>(
            line_reading(p, a, 0)->Ok_0 + line_reading(q, b, 0)->Ok_0,
        ),
{
    lemma_line_parts(p, a, q, b, 0);
}

proof fn lemma_run_is_plain(s: Seq<char>, i: int)
    requires
        0 <= i <= s.len(),
    ensures
        forall|j: int| i <= j < run_end(s, i) ==> #[trigger] emoji_at(s, j) < 0,
        run_end(s, i) < s.len() ==> emoji_at(s, run_end(s, i)) >= 0,
    decreases s.len() - i,
{
    if i < s.len() && emoji_at(s, i) < 0 {
        lemma_run_is_plain(s, i + 1);
    }
}

/// The piece is one of a line: an annotation of the list, or text in which no
/// annotation stands.
pub open spec fn is_segment(p: Piece) -> bool {
    match p {
        Piece::Emoji(e) => emojis().contains(e),
        Piece::Text(t) => t.len() > 0 && forall|j: int, k: int|
            0 <= j < t.len() && 0 <= k < emojis().len() ==> !#[trigger] text::matches_at(
                t,
                j,
                emojis()[k],
            ),
    }
}

proof fn lemma_segments(s: Seq<char>, i: int)
    requires
        0 <= i <= s.len(),
    ensures
        forall|k: int|
            0 <= k < segments_from(s, i).len() ==> is_segment(#[trigger] segments_from(s, i)[k]),
        forall|k: int|
            0 <= k < segments_from(s, i).len() - 1 ==> !((#[trigger] segments_from(s, i)[k]) is Text
                && segments_from(s, i)[k + 1] is Text),
        i < s.len() ==> segments_from(s, i).len() > 0 && (segments_from(s, i)[0] is Emoji) == (
        emoji_at(s, i) >= 0),
    decreases s.len() - i,
{
    let n = emoji_at(s, i);
    lemma_emoji_at(s, i);
    if i < s.len() {
        lemma_run_end(s, i);
        lemma_run_is_plain(s, i);
        let e = if n >= 0 {
            i + emojis()[n].len()
        } else {
            run_end(s, i)
        };
        if n < 0 {
            lemma_run_end(s, i + 1);
        }
        let all = segments_from(s, i);
        let rest = segments_from(s, e);
        lemma_segments(s, e);
        assert(all =~= seq![all[0]] + rest);
        if n < 0 {
            let t = s.subrange(i, e);
            assert forall|j: int, k: int|
                0 <= j < t.len() && 0 <= k < emojis().len() implies !#[trigger] text::matches_at(
                t,
                j,
                emojis()[k],
            ) by {
                if text::matches_at(t, j, emojis()[k]) {
                    let m = emojis()[k];
                    assert(s.subrange(i + j, i + j + m.len()) =~= t.subrange(j, j + m.len()));
                    assert(text::matches_at(s, i + j, m));
                    lemma_best_emoji(s, i + j, emojis().len() as int);
                    assert(emoji_at(s, i + j) < 0);
                }
            }
            assert(is_segment(all[0]));
        } else {
            assert(emojis()[n] == emojis()[n]);
            assert(emojis().contains(emojis()[n]));
            assert(is_segment(all[0]));
        }
        assert forall|k: int| 0 <= k < all.len() implies is_segment(#[trigger] all[k]) by {
            if k > 0 {
                assert(all[k] == rest[k - 1]);
            }
        }
        assert forall|k: int| 0 <= k < all.len() - 1 implies !((#[trigger] all[k]) is Text && all[k
            + 1] is Text) by {
            if k > 0 {
                assert(all[k] == rest[k - 1]);
                assert(all[k + 1] == rest[k]);
            }
        }
    }
}

/// Every annotation of a line stands by itself and none is left inside the text
/// between them; that text is in one piece.
pub proof fn annotations_stand_by_themselves(s: Seq<char>, k: int)
    requires
        0 <= k < segments_of(s).len(),
    ensures
        is_segment(segments_of(s)[k]),
        k + 1 < segments_of(s).len() ==> !(segments_of(s)[k] is Text && segments_of(s)[k
            + 1] is Text),
{
    lemma_segments(s, 0);
}

} // verus!
