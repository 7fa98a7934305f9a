//! Reading a text aloud: decoding the file, and cutting the text into chunks
//! that the voice model can take in one go.
//!
//! A chunk ends at a sentence end where it can, at a comma where a sentence is
//! too long, and in mid-phrase where even that is not enough. Chunks are cut
//! between tokens, and an annotation emoji is one token, so that no cut can
//! fall inside one.
use vstd::prelude::*;

use crate::preprocess::{emoji_list, find_emoji};
use crate::text::{
    blank, char_at, char_count, chars_of, decimal_text, is_whitespace, owned, push_text, same,
};
use crate::preprocess;
use crate::text;

verus! {

/// The smallest unit that a text is cut into: a character, or an annotation
/// emoji by its position in the list of annotations.
#[derive(Clone, Copy, Debug, PartialEq, Eq, Structural)]
pub enum Tok {
    Ch(char),
    Emoji(usize),
}

/// The characters of a token.
pub open spec fn tok_text(t: Tok) -> Seq<char> {
    match t {
        Tok::Ch(c) => seq![c],
        Tok::Emoji(k) => preprocess::emojis()[k as int],
    }
}

/// The characters of the tokens from the `i`-th on.
pub open spec fn toks_text_from(t: Seq<Tok>, i: int) -> Seq<char>
    decreases t.len() - i,
    when 0 <= i <= t.len()
{
    if i == t.len() {
        Seq::empty()
    } else {
        tok_text(t[i]) + toks_text_from(t, i + 1)
    }
}

/// The characters of a sequence of tokens.
pub open spec fn toks_text(t: Seq<Tok>) -> Seq<char> {
    toks_text_from(t, 0)
}

/// The tokens of the text from position `i` on.
pub open spec fn tokens_from(s: Seq<char>, i: int) -> Seq<Tok>
    decreases s.len() - i,
    when 0 <= i <= s.len()
    via tokens_from_terminates
{
    let k = preprocess::emoji_at(s, i);
    if i == s.len() {
        Seq::empty()
    } else if k >= 0 {
        seq![Tok::Emoji(k as usize)] + tokens_from(s, i + preprocess::emojis()[k].len())
    } else {
        seq![Tok::Ch(s[i])] + tokens_from(s, i + 1)
    }
}

#[via_fn]
proof fn tokens_from_terminates(s: Seq<char>, i: int) {
    preprocess::lemma_emoji_at(s, i);
}

/// The tokens of a text.
pub open spec fn tokens(s: Seq<char>) -> Seq<Tok> {
    tokens_from(s, 0)
}

/// Every annotation among the tokens is one of the list.
pub open spec fn toks_known(t: Seq<Tok>) -> bool {
    forall|i: int| 0 <= i < t.len() ==> (#[trigger] t[i] matches Tok::Emoji(k) ==> k < preprocess::emojis().len())
}

/// Cuts a text into tokens.
pub fn tokenize(text: &str) -> (r: Vec<Tok>)
    ensures
        r@ == tokens(text@),
        toks_known(r@),
{
    let list = emoji_list();
    let cs = chars_of(text);
    let mut out: Vec<Tok> = Vec::new();
    let mut i: usize = 0;
    assert(out@ + tokens_from(text@, 0) =~= tokens(text@));
    while i < cs.len()
        invariant
            i <= cs@.len(),
            cs@ == text@,
            list@.len() == preprocess::emojis().len(),
            forall|k: int| 0 <= k < list@.len() ==> (#[trigger] list@[k])@ == preprocess::emojis()[k],
            out@ + tokens_from(text@, i as int) == tokens(text@),
            toks_known(out@),
        decreases cs@.len() - i,
    {
        let ghost before = out@;
        proof {
            preprocess::lemma_emoji_at(text@, i as int);
        }
        match find_emoji(&cs, i, &list) {
            Some(k) => {
                let n: usize = chars_of(list[k]).len();
                out.push(Tok::Emoji(k));
                assert(preprocess::emoji_at(text@, i as int) as usize == k);
                assert(before + (seq![Tok::Emoji(k)] + tokens_from(text@, i + n)) =~= out@
                    + tokens_from(text@, i + n));
                i += n;
            },
            None => {
                out.push(Tok::Ch(char_at(&cs, i)));
                assert(before + (seq![Tok::Ch(text@[i as int])] + tokens_from(text@, i + 1))
                    =~= out@ + tokens_from(text@, i + 1));
                i += 1;
            },
        }
    }
    assert(out@ + Seq::<Tok>::empty() =~= out@);
    out
}

/// A token that ends a line.
pub open spec fn is_break(t: Tok) -> bool {
    t matches Tok::Ch(c) && (c == '\n' || c == '\r')
}

/// A character that ends a sentence.
pub open spec fn ends_sentence(c: char) -> bool {
    c == '。' || c == '！' || c == '？' || c == '!' || c == '?' || c == '…'
}

/// Whether the character ends a sentence.
pub fn is_sentence_end(c: char) -> (r: bool)
    ensures
        r == ends_sentence(c),
{
    c == '。' || c == '！' || c == '？' || c == '!' || c == '?' || c == '…'
}

/// A token that ends a sentence.
pub open spec fn is_stop(t: Tok) -> bool {
    t matches Tok::Ch(c) && ends_sentence(c)
}

/// A token that is heard: an annotation, or a character that is not white space.
pub open spec fn is_ink(t: Tok) -> bool {
    match t {
        Tok::Ch(c) => !text::is_white(c),
        Tok::Emoji(_) => true,
    }
}

/// The first position at or after `i` that holds no sentence end.
pub open spec fn stops_end(t: Seq<Tok>, i: int) -> int
    decreases t.len() - i,
    when 0 <= i <= t.len()
{
    if i < t.len() && is_stop(t[i]) {
        stops_end(t, i + 1)
    } else {
        i
    }
}

/// The first position at or after `i` that holds no annotation.
pub open spec fn emojis_end(t: Seq<Tok>, i: int) -> int
    decreases t.len() - i,
    when 0 <= i <= t.len()
{
    if i < t.len() && t[i] is Emoji {
        emojis_end(t, i + 1)
    } else {
        i
    }
}

proof fn lemma_runs_end(t: Seq<Tok>, i: int)
    requires
        0 <= i <= t.len(),
    ensures
        i <= stops_end(t, i) <= t.len(),
        i <= emojis_end(t, i) <= t.len(),
    decreases t.len() - i,
{
    if i < t.len() {
        lemma_runs_end(t, i + 1);
    }
}

/// Where the sentence that begins at `i` ends: before a line break, or behind
/// a run of sentence ends and the annotations that follow it.
pub open spec fn sentence_end(t: Seq<Tok>, i: int) -> int
    decreases t.len() - i,
    when 0 <= i <= t.len()
{
    if i == t.len() || is_break(t[i]) {
        i
    } else if is_stop(t[i]) {
        emojis_end(t, stops_end(t, i))
    } else {
        sentence_end(t, i + 1)
    }
}

/// Where the next sentence begins: behind the line break, if one stands there.
pub open spec fn sentence_next(t: Seq<Tok>, i: int) -> int {
    let e = sentence_end(t, i);
    if e < t.len() && is_break(t[e]) {
        e + 1
    } else {
        e
    }
}

pub proof fn lemma_sentence_end(t: Seq<Tok>, i: int)
    requires
        0 <= i <= t.len(),
    ensures
        i <= sentence_end(t, i) <= t.len(),
        i < t.len() ==> i < sentence_next(t, i) <= t.len(),
    decreases t.len() - i,
{
    if i < t.len() && !is_break(t[i]) {
        lemma_sentence_end(t, i + 1);
        lemma_runs_end(t, i + 1);
        lemma_runs_end(t, stops_end(t, i));
    }
}

/// Something in the sentence is heard.
pub open spec fn has_ink(t: Seq<Tok>) -> bool {
    exists|i: int| 0 <= i < t.len() && is_ink(#[trigger] t[i])
}

/// The sentence by itself, or nothing where there is nothing to be heard in it.
pub open spec fn kept(t: Seq<Tok>) -> Seq<Seq<Tok>> {
    if has_ink(t) {
        seq![t]
    } else {
        Seq::empty()
    }
}

/// The sentences of the tokens from the `i`-th on.
pub open spec fn sentences_from(t: Seq<Tok>, i: int) -> Seq<Seq<Tok>>
    decreases t.len() - i,
    when 0 <= i <= t.len()
    via sentences_from_terminates
{
    if i == t.len() {
        Seq::empty()
    } else {
        kept(t.subrange(i, sentence_end(t, i))) + sentences_from(t, sentence_next(t, i))
    }
}

#[via_fn]
proof fn sentences_from_terminates(t: Seq<Tok>, i: int) {
    lemma_sentence_end(t, i);
}

/// The sentences of a sequence of tokens.
pub open spec fn sentences_of(t: Seq<Tok>) -> Seq<Seq<Tok>> {
    sentences_from(t, 0)
}

/// The token sequences that a vector of vectors holds.
pub open spec fn tok_seqs(v: Seq<Vec<Tok>>) -> Seq<Seq<Tok>> {
    Seq::new(v.len(), |i: int| v[i]@)
}

/// The tokens between two positions.
fn slice_toks(t: &Vec<Tok>, from: usize, to: usize) -> (r: Vec<Tok>)
    requires
        from <= to <= t@.len(),
    ensures
        r@ == t@.subrange(from as int, to as int),
{
    let mut out: Vec<Tok> = Vec::new();
    let mut i: usize = from;
    while i < to
        invariant
            from <= i <= to <= t@.len(),
            out@ == t@.subrange(from as int, i as int),
        decreases to - i,
    {
        out.push(t[i]);
        i += 1;
        assert(out@ =~= t@.subrange(from as int, i as int));
    }
    out
}

/// Whether something in the tokens is heard.
fn any_ink(t: &Vec<Tok>) -> (r: bool)
    ensures
        r == has_ink(t@),
{
    let mut i: usize = 0;
    while i < t.len()
        invariant
            i <= t@.len(),
            forall|j: int| 0 <= j < i ==> !is_ink(#[trigger] t@[j]),
        decreases t@.len() - i,
    {
        let heard = match t[i] {
            Tok::Ch(c) => !is_whitespace(c),
            Tok::Emoji(_) => true,
        };
        if heard {
            assert(is_ink(t@[i as int]));
            return true;
        }
        i += 1;
    }
    false
}

/// Where the sentence that begins at `start` ends.
fn find_sentence_end(toks: &Vec<Tok>, start: usize) -> (r: usize)
    requires
        start <= toks@.len(),
    ensures
        r as int == sentence_end(toks@, start as int),
        start <= r <= toks@.len(),
{
    let mut i: usize = start;
    while i < toks.len()
        invariant
            start <= i <= toks@.len(),
            sentence_end(toks@, start as int) == sentence_end(toks@, i as int),
        decreases toks@.len() - i,
    {
        match toks[i] {
            Tok::Ch(c) => {
                if c == '\n' || c == '\r' {
                    return i;
                }
                if is_sentence_end(c) {
                    let mut j: usize = i;
                    loop
                        invariant_except_break
                            stops_end(toks@, i as int) == stops_end(toks@, j as int),
                        invariant
                            i <= j <= toks@.len(),
                        ensures
                            j as int == stops_end(toks@, i as int),
                        decreases toks@.len() - j,
                    {
                        if j >= toks.len() {
                            break;
                        }
                        let stop = match toks[j] {
                            Tok::Ch(d) => is_sentence_end(d),
                            Tok::Emoji(_) => false,
                        };
                        if !stop {
                            break;
                        }
                        j += 1;
                    }
                    let mut k: usize = j;
                    loop
                        invariant_except_break
                            emojis_end(toks@, j as int) == emojis_end(toks@, k as int),
                        invariant
                            j <= k <= toks@.len(),
                        ensures
                            k as int == emojis_end(toks@, j as int),
                        decreases toks@.len() - k,
                    {
                        if k >= toks.len() {
                            break;
                        }
                        let emoji = match toks[k] {
                            Tok::Ch(_) => false,
                            Tok::Emoji(_) => true,
                        };
                        if !emoji {
                            break;
                        }
                        k += 1;
                    }
                    return k;
                }
            },
            Tok::Emoji(_) => {},
        }
        i += 1;
    }
    i
}

/// Cuts tokens into sentences. A line break ends a sentence and belongs to
/// none; a run of sentence ends belongs to the sentence that it ends, and so do
/// the annotations right behind it. A sentence with nothing to be heard goes.
pub fn split_sentences(toks: &Vec<Tok>) -> (r: Vec<Vec<Tok>>)
    ensures
        tok_seqs(r@) == sentences_of(toks@),
{
    let mut out: Vec<Vec<Tok>> = Vec::new();
    let mut i: usize = 0;
    assert(tok_seqs(out@) + sentences_from(toks@, 0) =~= sentences_of(toks@));
    while i < toks.len()
        invariant
            i <= toks@.len(),
            tok_seqs(out@) + sentences_from(toks@, i as int) == sentences_of(toks@),
        decreases toks@.len() - i,
    {
        let ghost before = tok_seqs(out@);
        proof {
            lemma_sentence_end(toks@, i as int);
        }
        let e = find_sentence_end(toks, i);
        let sentence = slice_toks(toks, i, e);
        let ghost whole = sentence@;
        if any_ink(&sentence) {
            out.push(sentence);
            assert(tok_seqs(out@) =~= before.push(whole));
        }
        assert(tok_seqs(out@) =~= before + kept(whole));
        let at_break = if e < toks.len() {
            match toks[e] {
                Tok::Ch(c) => c == '\n' || c == '\r',
                Tok::Emoji(_) => false,
            }
        } else {
            false
        };
        let next: usize = if at_break { e + 1 } else { e };
        assert(next as int == sentence_next(toks@, i as int));
        assert(before + (kept(whole) + sentences_from(toks@, next as int)) =~= tok_seqs(out@)
            + sentences_from(toks@, next as int));
        i = next;
    }
    assert(tok_seqs(out@) + Seq::<Seq<Tok>>::empty() =~= tok_seqs(out@));
    out
}

/// Behind the first comma at or after `i`, or the end.
pub open spec fn comma_end(t: Seq<Tok>, i: int) -> int
    decreases t.len() - i,
    when 0 <= i <= t.len()
{
    if i == t.len() {
        i
    } else if t[i] == Tok::Ch('、') {
        i + 1
    } else {
        comma_end(t, i + 1)
    }
}

pub proof fn lemma_comma_end(t: Seq<Tok>, i: int)
    requires
        0 <= i <= t.len(),
    ensures
        i <= comma_end(t, i) <= t.len(),
        i < t.len() ==> i < comma_end(t, i),
    decreases t.len() - i,
{
    if i < t.len() && t[i] != Tok::Ch('、') {
        lemma_comma_end(t, i + 1);
    }
}

/// A stretch of tokens in blocks of `max`; the last one may be shorter.
pub open spec fn blocks(t: Seq<Tok>, max: int) -> Seq<Seq<Tok>>
    decreases t.len(),
    when max > 0
{
    if t.len() <= max {
        seq![t]
    } else {
        seq![t.take(max)] + blocks(t.skip(max), max)
    }
}

/// The phrases of a sentence from the `i`-th token on, each cut into blocks
/// where it is too long. A comma ends a phrase and belongs to it.
pub open spec fn phrases_from(t: Seq<Tok>, i: int, max: int) -> Seq<Seq<Tok>>
    decreases t.len() - i,
    when 0 <= i <= t.len()
    via phrases_from_terminates
{
    if i == t.len() {
        Seq::empty()
    } else {
        blocks(t.subrange(i, comma_end(t, i)), max) + phrases_from(t, comma_end(t, i), max)
    }
}

#[via_fn]
proof fn phrases_from_terminates(t: Seq<Tok>, i: int, max: int) {
    lemma_comma_end(t, i);
}

/// Appends `t` in blocks of `max`.
fn push_blocks(out: &mut Vec<Vec<Tok>>, t: &Vec<Tok>, max: usize)
    requires
        max > 0,
    ensures
        tok_seqs(final(out)@) == tok_seqs(old(out)@) + blocks(t@, max as int),
{
    let ghost before = tok_seqs(out@);
    let mut i: usize = 0;
    assert(t@.skip(0) =~= t@);
    while t.len() - i > max
        invariant
            max > 0,
            i <= t@.len(),
            tok_seqs(out@) + blocks(t@.skip(i as int), max as int) == before + blocks(
                t@,
                max as int,
            ),
        decreases t@.len() - i,
    {
        let ghost prior = tok_seqs(out@);
        let ghost rest = t@.skip(i as int);
        let block = slice_toks(t, i, i + max);
        assert(block@ =~= rest.take(max as int));
        out.push(block);
        assert(tok_seqs(out@) =~= prior.push(block@));
        assert(rest.skip(max as int) =~= t@.skip(i + max));
        assert(tok_seqs(out@) + blocks(t@.skip(i + max), max as int) =~= prior + (seq![block@]
            + blocks(rest.skip(max as int), max as int)));
        i += max;
    }
    let ghost prior = tok_seqs(out@);
    let block = slice_toks(t, i, t.len());
    assert(block@ =~= t@.skip(i as int));
    out.push(block);
    assert(tok_seqs(out@) =~= prior + seq![block@]);
}

/// Cuts a sentence that is too long: at its commas, and every `max` tokens
/// where a phrase is still too long.
pub fn split_long_sentence(sentence: &Vec<Tok>, max: usize) -> (r: Vec<Vec<Tok>>)
    requires
        max > 0,
    ensures
        tok_seqs(r@) == phrases_from(sentence@, 0, max as int),
{
    let mut out: Vec<Vec<Tok>> = Vec::new();
    let mut i: usize = 0;
    assert(tok_seqs(out@) + phrases_from(sentence@, 0, max as int) =~= phrases_from(
        sentence@,
        0,
        max as int,
    ));
    while i < sentence.len()
        invariant
            max > 0,
            i <= sentence@.len(),
            tok_seqs(out@) + phrases_from(sentence@, i as int, max as int) == phrases_from(
                sentence@,
                0,
                max as int,
            ),
        decreases sentence@.len() - i,
    {
        let ghost prior = tok_seqs(out@);
        proof {
            lemma_comma_end(sentence@, i as int);
        }
        let mut e: usize = i;
        loop
            invariant_except_break
                comma_end(sentence@, i as int) == comma_end(sentence@, e as int),
            invariant
                i <= e <= sentence@.len(),
            ensures
                e as int == comma_end(sentence@, i as int),
            decreases sentence@.len() - e,
        {
            if e >= sentence.len() {
                break;
            }
            let comma = match sentence[e] {
                Tok::Ch(c) => c == '、',
                Tok::Emoji(_) => false,
            };
            e += 1;
            if comma {
                break;
            }
        }
        let phrase = slice_toks(sentence, i, e);
        push_blocks(&mut out, &phrase, max);
        assert(tok_seqs(out@) + phrases_from(sentence@, e as int, max as int) =~= prior
            + phrases_from(sentence@, i as int, max as int));
        i = e;
    }
    assert(tok_seqs(out@) + Seq::<Seq<Tok>>::empty() =~= tok_seqs(out@));
    out
}

/// A sentence as it goes into the chunks: whole where it fits, else in phrases.
pub open spec fn fitted(t: Seq<Tok>, max: int) -> Seq<Seq<Tok>> {
    if t.len() > max {
        phrases_from(t, 0, max)
    } else {
        seq![t]
    }
}

/// The sentences from the `k`-th on, fitted.
pub open spec fn fitted_from(s: Seq<Seq<Tok>>, k: int, max: int) -> Seq<Seq<Tok>>
    decreases s.len() - k,
    when 0 <= k <= s.len()
{
    if k == s.len() {
        Seq::empty()
    } else {
        fitted(s[k], max) + fitted_from(s, k + 1, max)
    }
}

/// A chunk by itself, or nothing where it is empty or blank.
pub open spec fn emitted(t: Seq<Tok>) -> Seq<Seq<Tok>> {
    if t.len() > 0 && !text::is_blank(toks_text(t)) {
        seq![t]
    } else {
        Seq::empty()
    }
}

/// The chunks that the pieces from the `k`-th on give, with `cur` begun: a
/// piece joins the chunk in progress where that leaves it within `max`.
pub open spec fn packed_from(p: Seq<Seq<Tok>>, k: int, cur: Seq<Tok>, max: int) -> Seq<Seq<Tok>>
    decreases p.len() - k,
    when 0 <= k <= p.len()
{
    if k == p.len() {
        emitted(cur)
    } else if cur.len() + p[k].len() > max && cur.len() > 0 {
        emitted(cur) + packed_from(p, k + 1, p[k], max)
    } else {
        packed_from(p, k + 1, cur + p[k], max)
    }
}

/// The chunks of a text, as tokens.
pub open spec fn chunks_of(s: Seq<char>, max: int) -> Seq<Seq<Tok>> {
    packed_from(fitted_from(sentences_of(tokens(s)), 0, max), 0, Seq::empty(), max)
}

/// The text::texts of chunks.
pub open spec fn chunk_texts(c: Seq<Seq<Tok>>) -> Seq<Seq<char>> {
    Seq::new(c.len(), |i: int| toks_text(c[i]))
}

/// The text of a sequence of tokens.
pub fn toks_to_string(toks: &Vec<Tok>) -> (r: String)
    requires
        toks_known(toks@),
    ensures
        r@ == toks_text(toks@),
{
    let list = emoji_list();
    let mut out = String::new();
    let mut i: usize = 0;
    assert(out@ + toks_text_from(toks@, 0) =~= toks_text(toks@));
    while i < toks.len()
        invariant
            i <= toks@.len(),
            toks_known(toks@),
            list@.len() == preprocess::emojis().len(),
            forall|k: int| 0 <= k < list@.len() ==> (#[trigger] list@[k])@ == preprocess::emojis()[k],
            out@ + toks_text_from(toks@, i as int) == toks_text(toks@),
        decreases toks@.len() - i,
    {
        let ghost prior = out@;
        match toks[i] {
            Tok::Ch(c) => {
                out.push(c);
            },
            Tok::Emoji(k) => {
                push_text(&mut out, list[k]);
            },
        }
        assert(out@ =~= prior + tok_text(toks@[i as int]));
        assert(out@ + toks_text_from(toks@, i + 1) =~= prior + toks_text_from(toks@, i as int));
        i += 1;
    }
    assert(out@ + Seq::<char>::empty() =~= out@);
    out
}

/// Every annotation in every piece is one of the list.
pub open spec fn all_known(p: Seq<Seq<Tok>>) -> bool {
    forall|i: int| 0 <= i < p.len() ==> toks_known(#[trigger] p[i])
}

/// No piece is longer than `max`.
pub open spec fn all_within(p: Seq<Seq<Tok>>, max: int) -> bool {
    forall|i: int| 0 <= i < p.len() ==> (#[trigger] p[i]).len() <= max
}

proof fn lemma_known_sub(t: Seq<Tok>, a: int, b: int)
    requires
        0 <= a <= b <= t.len(),
        toks_known(t),
    ensures
        toks_known(t.subrange(a, b)),
{
    assert forall|i: int| 0 <= i < b - a implies (#[trigger] t.subrange(a, b)[i] matches Tok::Emoji(
        k,
    ) ==> k < preprocess::emojis().len()) by {
        assert(t.subrange(a, b)[i] == t[a + i]);
    }
}

proof fn lemma_known_add(a: Seq<Tok>, b: Seq<Tok>)
    requires
        toks_known(a),
        toks_known(b),
    ensures
        toks_known(a + b),
{
    assert forall|i: int| 0 <= i < (a + b).len() implies (#[trigger] (a + b)[i] matches Tok::Emoji(
        k,
    ) ==> k < preprocess::emojis().len()) by {
        if i < a.len() {
            assert((a + b)[i] == a[i]);
        } else {
            assert((a + b)[i] == b[i - a.len()]);
        }
    }
}

proof fn lemma_sentences_known(t: Seq<Tok>, i: int)
    requires
        0 <= i <= t.len(),
        toks_known(t),
    ensures
        all_known(sentences_from(t, i)),
    decreases t.len() - i,
{
    if i < t.len() {
        lemma_sentence_end(t, i);
        lemma_known_sub(t, i, sentence_end(t, i));
        lemma_sentences_known(t, sentence_next(t, i));
    }
}

proof fn lemma_blocks_fit(t: Seq<Tok>, max: int)
    requires
        max > 0,
    ensures
        all_within(blocks(t, max), max),
        toks_known(t) ==> all_known(blocks(t, max)),
    decreases t.len(),
{
    if t.len() > max {
        lemma_blocks_fit(t.skip(max), max);
        if toks_known(t) {
            lemma_known_sub(t, 0, max);
            lemma_known_sub(t, max, t.len() as int);
        }
    }
}

proof fn lemma_phrases_fit(t: Seq<Tok>, i: int, max: int)
    requires
        0 <= i <= t.len(),
        max > 0,
    ensures
        all_within(phrases_from(t, i, max), max),
        toks_known(t) ==> all_known(phrases_from(t, i, max)),
    decreases t.len() - i,
{
    if i < t.len() {
        lemma_comma_end(t, i);
        let phrase = t.subrange(i, comma_end(t, i));
        lemma_blocks_fit(phrase, max);
        lemma_phrases_fit(t, comma_end(t, i), max);
        if toks_known(t) {
            lemma_known_sub(t, i, comma_end(t, i));
        }
    }
}

proof fn lemma_fitted_fit(s: Seq<Seq<Tok>>, k: int, max: int)
    requires
        0 <= k <= s.len(),
        max > 0,
    ensures
        all_within(fitted_from(s, k, max), max),
        all_known(s) ==> all_known(fitted_from(s, k, max)),
    decreases s.len() - k,
{
    if k < s.len() {
        lemma_phrases_fit(s[k], 0, max);
        lemma_fitted_fit(s, k + 1, max);
    }
}

/// The pieces that a text's chunks are made of.
pub open spec fn pieces_of(s: Seq<char>, max: int) -> Seq<Seq<Tok>> {
    fitted_from(sentences_of(tokens(s)), 0, max)
}

/// Appends the chunk in progress, unless it is blank.
fn flush(cur: &Vec<Tok>, out: &mut Vec<String>)
    requires
        toks_known(cur@),
    ensures
        text::texts(final(out)@) == text::texts(old(out)@) + chunk_texts(emitted(cur@)),
{
    let ghost before = text::texts(out@);
    if cur.len() > 0 {
        let s = toks_to_string(cur);
        if !blank(s.as_str()) {
            out.push(s);
            assert(text::texts(out@) =~= before.push(s@));
            assert(chunk_texts(emitted(cur@)) =~= seq![s@]);
        }
    }
    assert(text::texts(out@) =~= before + chunk_texts(emitted(cur@)));
}

/// The pieces of all sentences, each whole where it fits.
fn fit_sentences(sentences: &Vec<Vec<Tok>>, max: usize) -> (r: Vec<Vec<Tok>>)
    requires
        max > 0,
    ensures
        tok_seqs(r@) == fitted_from(tok_seqs(sentences@), 0, max as int),
{
    let ghost s = tok_seqs(sentences@);
    let mut out: Vec<Vec<Tok>> = Vec::new();
    let mut k: usize = 0;
    assert(tok_seqs(out@) + fitted_from(s, 0, max as int) =~= fitted_from(s, 0, max as int));
    while k < sentences.len()
        invariant
            max > 0,
            k <= sentences@.len(),
            s == tok_seqs(sentences@),
            tok_seqs(out@) + fitted_from(s, k as int, max as int) == fitted_from(s, 0, max as int),
        decreases sentences@.len() - k,
    {
        let ghost prior = tok_seqs(out@);
        let ghost rest = fitted_from(s, k + 1, max as int);
        assert(s[k as int] == sentences@[k as int]@);
        if sentences[k].len() > max {
            let mut parts = split_long_sentence(&sentences[k], max);
            let ghost added = tok_seqs(parts@);
            let ghost sofar = out@;
            let ghost more = parts@;
            out.append(&mut parts);
            assert(out@ == sofar + more);
            assert(tok_seqs(out@) =~= prior + added);
            assert(tok_seqs(out@) + rest =~= prior + (added + rest));
        } else {
            let whole = slice_toks(&sentences[k], 0, sentences[k].len());
            assert(whole@ =~= s[k as int]);
            out.push(whole);
            assert(tok_seqs(out@) =~= prior + seq![s[k as int]]);
            assert(tok_seqs(out@) + rest =~= prior + (seq![s[k as int]] + rest));
        }
        k += 1;
    }
    assert(tok_seqs(out@) + Seq::<Seq<Tok>>::empty() =~= tok_seqs(out@));
    out
}

proof fn lemma_chunk_texts_add(a: Seq<Seq<Tok>>, b: Seq<Seq<Tok>>)
    ensures
        chunk_texts(a + b) == chunk_texts(a) + chunk_texts(b),
{
    assert(chunk_texts(a + b) =~= chunk_texts(a) + chunk_texts(b));
}

/// Cuts a text into chunks of at most `max` tokens.
pub fn split_reading_chunks_with_max(text: &str, max: usize) -> (r: Vec<String>)
    requires
        max > 0,
    ensures
        text::texts(r@) == chunk_texts(chunks_of(text@, max as int)),
{
    let toks = tokenize(text);
    let sentences = split_sentences(&toks);
    let parts = fit_sentences(&sentences, max);
    let ghost p = pieces_of(text@, max as int);
    proof {
        lemma_sentences_known(toks@, 0);
        lemma_fitted_fit(sentences_of(toks@), 0, max as int);
    }
    let mut out: Vec<String> = Vec::new();
    let mut cur: Vec<Tok> = Vec::new();
    let mut k: usize = 0;
    proof {
        assert(cur@ =~= Seq::<Tok>::empty());
        assert(text::texts(out@) + chunk_texts(packed_from(p, 0, cur@, max as int)) =~= chunk_texts(
            chunks_of(text@, max as int),
        ));
    }
    while k < parts.len()
        invariant
            k <= parts@.len(),
            p == tok_seqs(parts@),
            all_known(p),
            all_within(p, max as int),
            toks_known(cur@),
            cur@.len() <= max,
            text::texts(out@) + chunk_texts(packed_from(p, k as int, cur@, max as int)) == chunk_texts(
                chunks_of(text@, max as int),
            ),
        decreases parts@.len() - k,
    {
        let ghost prior = text::texts(out@);
        assert(p[k as int] == parts@[k as int]@);
        if parts[k].len() > max - cur.len() && cur.len() > 0 {
            flush(&cur, &mut out);
            let ghost rest = packed_from(p, k + 1, p[k as int], max as int);
            proof {
                lemma_chunk_texts_add(emitted(cur@), rest);
                assert(text::texts(out@) + chunk_texts(rest) =~= prior + chunk_texts(
                    emitted(cur@) + rest,
                ));
            }
            cur = slice_toks(&parts[k], 0, parts[k].len());
            assert(cur@ =~= p[k as int]);
        } else {
            let mut piece = slice_toks(&parts[k], 0, parts[k].len());
            assert(piece@ =~= p[k as int]);
            proof {
                lemma_known_add(cur@, p[k as int]);
            }
            cur.append(&mut piece);
        }
        k += 1;
    }
    flush(&cur, &mut out);
    out
}

/// The most tokens of a chunk.
pub const MAX_CHUNK_CHARS: usize = 120;

/// Cuts a text into chunks to be read aloud one by one.
pub fn split_reading_chunks(text: &str) -> (r: Vec<String>)
    ensures
        text::texts(r@) == chunk_texts(chunks_of(text@, MAX_CHUNK_CHARS as int)),
{
    split_reading_chunks_with_max(text, MAX_CHUNK_CHARS)
}

proof fn lemma_packed_fit(p: Seq<Seq<Tok>>, k: int, cur: Seq<Tok>, max: int)
    requires
        0 <= k <= p.len(),
        all_within(p, max),
        cur.len() <= max,
    ensures
        forall|i: int|
            0 <= i < packed_from(p, k, cur, max).len() ==> {
                let c = #[trigger] packed_from(p, k, cur, max)[i];
                0 < c.len() <= max && !text::is_blank(toks_text(c))
            },
    decreases p.len() - k,
{
    if k < p.len() {
        if cur.len() + p[k].len() > max && cur.len() > 0 {
            lemma_packed_fit(p, k + 1, p[k], max);
            let rest = packed_from(p, k + 1, p[k], max);
            let all = packed_from(p, k, cur, max);
            assert forall|i: int| 0 <= i < all.len() implies {
                let c = #[trigger] all[i];
                0 < c.len() <= max && !text::is_blank(toks_text(c))
            } by {
                let n = emitted(cur).len();
                if i >= n {
                    assert(all[i] == rest[i - n]);
                }
            }
        } else {
            assert(p[k].len() <= max);
            lemma_packed_fit(p, k + 1, cur + p[k], max);
            assert(packed_from(p, k, cur, max) == packed_from(p, k + 1, cur + p[k], max));
        }
    } else {
        assert(packed_from(p, k, cur, max) == emitted(cur));
        if emitted(cur).len() > 0 {
            assert(emitted(cur) == seq![cur]);
        }
    }
}

/// No chunk is empty, blank, or longer than the limit.
pub proof fn chunks_fit(s: Seq<char>, max: int, i: int)
    requires
        max > 0,
        0 <= i < chunks_of(s, max).len(),
    ensures
        0 < chunks_of(s, max)[i].len() <= max,
        !text::is_blank(toks_text(chunks_of(s, max)[i])),
{
    lemma_fitted_fit(sentences_of(tokens(s)), 0, max);
    lemma_packed_fit(pieces_of(s, max), 0, Seq::empty(), max);
}

/// The tokens that are heard.
pub open spec fn heard(t: Seq<Tok>) -> Seq<Tok> {
    t.filter(|x: Tok| is_ink(x))
}

proof fn lemma_heard_add(a: Seq<Tok>, b: Seq<Tok>)
    ensures
        heard(a + b) == heard(a) + heard(b),
{
    Seq::filter_distributes_over_add(a, b, |x: Tok| is_ink(x));
}

proof fn lemma_heard_nothing(t: Seq<Tok>)
    requires
        !has_ink(t),
    ensures
        heard(t) == Seq::<Tok>::empty(),
    decreases t.len(),
{
    reveal(Seq::filter);
    if t.len() > 0 {
        assert(!is_ink(t[t.len() - 1]));
        assert forall|i: int| 0 <= i < t.drop_last().len() implies !is_ink(
            #[trigger] t.drop_last()[i],
        ) by {
            assert(t.drop_last()[i] == t[i]);
        }
        lemma_heard_nothing(t.drop_last());
    }
}

proof fn lemma_flatten_kept(t: Seq<Tok>)
    ensures
        heard(kept(t).flatten()) == heard(t),
{
    if has_ink(t) {
        kept(t).lemma_flatten_one_element();
    } else {
        lemma_heard_nothing(t);
        lemma_heard_nothing(Seq::empty());
    }
}

proof fn lemma_sentences_heard(t: Seq<Tok>, i: int)
    requires
        0 <= i <= t.len(),
    ensures
        heard(sentences_from(t, i).flatten()) == heard(t.skip(i)),
    decreases t.len() - i,
{
    if i < t.len() {
        lemma_sentence_end(t, i);
        let e = sentence_end(t, i);
        let n = sentence_next(t, i);
        let a = t.subrange(i, e);
        lemma_sentences_heard(t, n);
        vstd::seq_lib::lemma_flatten_concat(kept(a), sentences_from(t, n));
        lemma_heard_add(kept(a).flatten(), sentences_from(t, n).flatten());
        lemma_flatten_kept(a);
        let gap = t.subrange(e, n);
        assert(t.skip(i) =~= a + (gap + t.skip(n)));
        lemma_heard_add(a, gap + t.skip(n));
        lemma_heard_add(gap, t.skip(n));
        assert(!has_ink(gap)) by {
            if n > e {
                assert(gap.len() == 1 && gap[0] == t[e]);
            }
        }
        lemma_heard_nothing(gap);
        assert(heard(gap) + heard(t.skip(n)) =~= heard(t.skip(n)));
    } else {
        assert(t.skip(i) =~= Seq::<Tok>::empty());
    }
}

proof fn lemma_blocks_flatten(t: Seq<Tok>, max: int)
    requires
        max > 0,
    ensures
        blocks(t, max).flatten() == t,
    decreases t.len(),
{
    if t.len() <= max {
        blocks(t, max).lemma_flatten_one_element();
    } else {
        lemma_blocks_flatten(t.skip(max), max);
        vstd::seq_lib::lemma_flatten_concat(seq![t.take(max)], blocks(t.skip(max), max));
        seq![t.take(max)].lemma_flatten_one_element();
        assert(t =~= t.take(max) + t.skip(max));
    }
}

proof fn lemma_phrases_flatten(t: Seq<Tok>, i: int, max: int)
    requires
        0 <= i <= t.len(),
        max > 0,
    ensures
        phrases_from(t, i, max).flatten() == t.skip(i),
    decreases t.len() - i,
{
    if i < t.len() {
        lemma_comma_end(t, i);
        let e = comma_end(t, i);
        lemma_phrases_flatten(t, e, max);
        lemma_blocks_flatten(t.subrange(i, e), max);
        vstd::seq_lib::lemma_flatten_concat(
            blocks(t.subrange(i, e), max),
            phrases_from(t, e, max),
        );
        assert(t.skip(i) =~= t.subrange(i, e) + t.skip(e));
    } else {
        assert(t.skip(i) =~= Seq::<Tok>::empty());
    }
}

proof fn lemma_fitted_flatten(s: Seq<Seq<Tok>>, k: int, max: int)
    requires
        0 <= k <= s.len(),
        max > 0,
    ensures
        fitted_from(s, k, max).flatten() == s.skip(k).flatten(),
    decreases s.len() - k,
{
    if k < s.len() {
        lemma_fitted_flatten(s, k + 1, max);
        if s[k].len() > max {
            lemma_phrases_flatten(s[k], 0, max);
            assert(s[k].skip(0) =~= s[k]);
        } else {
            seq![s[k]].lemma_flatten_one_element();
        }
        vstd::seq_lib::lemma_flatten_concat(fitted(s[k], max), fitted_from(s, k + 1, max));
        assert(s.skip(k).drop_first() =~= s.skip(k + 1));
    } else {
        assert(s.skip(k) =~= Seq::<Seq<Tok>>::empty());
    }
}

proof fn lemma_toks_text_skip(t: Seq<Tok>, i: int, j: int)
    requires
        0 <= j <= i <= t.len(),
    ensures
        toks_text_from(t, i) == toks_text_from(t.skip(j), i - j),
    decreases t.len() - i,
{
    if i < t.len() {
        lemma_toks_text_skip(t, i + 1, j);
        assert(t.skip(j)[i - j] == t[i]);
    }
}

/// A token that is heard shows in the text as something other than white space.
proof fn lemma_ink_shows(t: Seq<Tok>, i: int)
    requires
        0 <= i <= t.len(),
        toks_known(t),
        text::is_blank(toks_text_from(t, i)),
    ensures
        forall|j: int| i <= j < t.len() ==> !is_ink(#[trigger] t[j]),
    decreases t.len() - i,
{
    if i < t.len() {
        let head = tok_text(t[i]);
        let rest = toks_text_from(t, i + 1);
        let all = toks_text_from(t, i);
        preprocess::lemma_emojis_nonempty();
        crate::preprocess::lemma_emojis_show();
        assert(head.len() > 0);
        assert(all[0] == head[0]);
        assert(!is_ink(t[i]));
        assert forall|j: int| 0 <= j < rest.len() implies text::is_white(#[trigger] rest[j]) by {
            assert(all[head.len() + j] == rest[j]);
        }
        lemma_ink_shows(t, i + 1);
    }
}

proof fn lemma_emitted_heard(t: Seq<Tok>)
    requires
        toks_known(t),
    ensures
        heard(emitted(t).flatten()) == heard(t),
{
    if t.len() > 0 && !text::is_blank(toks_text(t)) {
        emitted(t).lemma_flatten_one_element();
    } else {
        if t.len() > 0 {
            lemma_ink_shows(t, 0);
        }
        assert(!has_ink(t));
        lemma_heard_nothing(t);
        lemma_heard_nothing(Seq::empty());
    }
}

proof fn lemma_packed_heard(p: Seq<Seq<Tok>>, k: int, cur: Seq<Tok>, max: int)
    requires
        0 <= k <= p.len(),
        all_known(p),
        toks_known(cur),
    ensures
        heard(packed_from(p, k, cur, max).flatten()) == heard(cur) + heard(p.skip(k).flatten()),
    decreases p.len() - k,
{
    if k < p.len() {
        assert(p.skip(k).drop_first() =~= p.skip(k + 1));
        assert(p.skip(k).flatten() == p[k] + p.skip(k + 1).flatten());
        lemma_heard_add(p[k], p.skip(k + 1).flatten());
        if cur.len() + p[k].len() > max && cur.len() > 0 {
            let rest = packed_from(p, k + 1, p[k], max);
            lemma_packed_heard(p, k + 1, p[k], max);
            vstd::seq_lib::lemma_flatten_concat(emitted(cur), rest);
            lemma_heard_add(emitted(cur).flatten(), rest.flatten());
            lemma_emitted_heard(cur);
        } else {
            lemma_known_add(cur, p[k]);
            lemma_packed_heard(p, k + 1, cur + p[k], max);
            lemma_heard_add(cur, p[k]);
            assert(heard(cur) + heard(p[k]) + heard(p.skip(k + 1).flatten()) =~= heard(cur) + (
            heard(p[k]) + heard(p.skip(k + 1).flatten())));
        }
    } else {
        assert(p.skip(k) =~= Seq::<Seq<Tok>>::empty());
        lemma_emitted_heard(cur);
        lemma_heard_nothing(Seq::empty());
        assert(heard(cur) + Seq::<Tok>::empty() =~= heard(cur));
    }
}

proof fn lemma_tokens_known(s: Seq<char>, i: int)
    requires
        0 <= i <= s.len(),
    ensures
        toks_known(tokens_from(s, i)),
    decreases s.len() - i,
{
    if i < s.len() {
        preprocess::lemma_emoji_at(s, i);
        preprocess::lemma_emojis_nonempty();
        text::lemma_char(s[i]);
        let k = preprocess::emoji_at(s, i);
        if k >= 0 {
            lemma_tokens_known(s, i + preprocess::emojis()[k].len());
            lemma_known_add(seq![Tok::Emoji(k as usize)], tokens_from(s, i + preprocess::emojis()[k].len()));
        } else {
            lemma_tokens_known(s, i + 1);
            lemma_known_add(seq![Tok::Ch(s[i])], tokens_from(s, i + 1));
        }
    }
}

/// Nothing that is heard is lost, doubled or moved: read one after the other,
/// the chunks hold the heard tokens of the text in their order.
pub proof fn chunks_keep_what_is_heard(s: Seq<char>, max: int)
    requires
        max > 0,
    ensures
        heard(chunks_of(s, max).flatten()) == heard(tokens(s)),
{
    let t = tokens(s);
    let st = sentences_of(t);
    let p = pieces_of(s, max);
    lemma_tokens_known(s, 0);
    lemma_sentences_known(t, 0);
    lemma_fitted_fit(st, 0, max);
    lemma_packed_heard(p, 0, Seq::empty(), max);
    lemma_fitted_flatten(st, 0, max);
    lemma_sentences_heard(t, 0);
    lemma_heard_nothing(Seq::empty());
    assert(p.skip(0) =~= p);
    assert(st.skip(0) =~= st);
    assert(t.skip(0) =~= t);
    assert(heard(Seq::empty()) + heard(p.flatten()) =~= heard(p.flatten()));
}

proof fn lemma_tokens_rejoin_from(s: Seq<char>, i: int)
    requires
        0 <= i <= s.len(),
    ensures
        toks_text(tokens_from(s, i)) == s.skip(i),
    decreases s.len() - i,
{
    let t = tokens_from(s, i);
    if i < s.len() {
        preprocess::lemma_emoji_at(s, i);
        preprocess::lemma_emojis_nonempty();
        text::lemma_char(s[i]);
        let k = preprocess::emoji_at(s, i);
        let n = if k >= 0 {
            preprocess::emojis()[k].len() as int
        } else {
            1
        };
        lemma_tokens_rejoin_from(s, i + n);
        assert(t.skip(1) =~= tokens_from(s, i + n));
        lemma_toks_text_skip(t, 1, 1);
        assert(toks_text(t) == tok_text(t[0]) + toks_text(t.skip(1)));
        assert(s.skip(i) =~= tok_text(t[0]) + s.skip(i + n));
    } else {
        assert(s.skip(i) =~= Seq::<char>::empty());
    }
}

/// Put back together, the tokens of a text are that text; a cut between
/// tokens therefore never falls inside an annotation.
pub proof fn tokens_rejoin(s: Seq<char>)
    ensures
        toks_text(tokens(s)) == s,
{
    lemma_tokens_rejoin_from(s, 0);
    assert(s.skip(0) =~= s);
}

/// The voice that a line is spoken with.
#[derive(Clone, Copy, Debug, PartialEq, Eq, Structural)]
pub enum VoiceSlot {
    Main,
    Sub,
}

/// One chunk to be read aloud, with how it is to be read.
#[derive(Debug, PartialEq)]
pub struct ReadingChunk {
    pub text: String,
    pub slot: VoiceSlot,
    /// The change of speed, as the bit pattern of a double.
    pub speed_offset: u64,
    pub caption: Option<String>,
    pub pause_after_ms: u32,
}

/// What a `ReadingChunk` says.
pub struct Chunk {
    pub text: Seq<char>,
    pub slot: VoiceSlot,
    pub speed_offset: u64,
    pub caption: Option<Seq<char>>,
    pub pause_after_ms: u32,
}

impl View for ReadingChunk {
    type V = Chunk;

    open spec fn view(&self) -> Chunk {
        Chunk {
            text: self.text@,
            slot: self.slot,
            speed_offset: self.speed_offset,
            caption: text::opt_text(self.caption),
            pause_after_ms: self.pause_after_ms,
        }
    }
}

/// What a sequence of chunks says.
pub open spec fn chunk_views(v: Seq<ReadingChunk>) -> Seq<Chunk> {
    Seq::new(v.len(), |i: int| v[i]@)
}

/// The pause between chunks where nothing else is asked for.
pub const DEFAULT_PAUSE_MS: u32 = 500;

/// The bit pattern of the double zero.
pub const NO_OFFSET: u64 = 0;

/// A chunk of plain text: the main voice at its own speed, no caption, the
/// default pause.
pub open spec fn plain_chunk(text: Seq<char>) -> Chunk {
    Chunk {
        text,
        slot: VoiceSlot::Main,
        speed_offset: NO_OFFSET,
        caption: None,
        pause_after_ms: DEFAULT_PAUSE_MS,
    }
}

/// Cuts a plain text into chunks, all read alike.
pub fn plain_text_chunks(text: &str) -> (r: Vec<ReadingChunk>)
    ensures
        chunk_views(r@) == chunk_texts(chunks_of(text@, MAX_CHUNK_CHARS as int)).map_values(
            |t: Seq<char>| plain_chunk(t),
        ),
{
    let parts = split_reading_chunks(text);
    let mut out: Vec<ReadingChunk> = Vec::new();
    let mut i: usize = 0;
    while i < parts.len()
        invariant
            i <= parts@.len(),
            out@.len() == i,
            forall|j: int| 0 <= j < i ==> (#[trigger] out@[j])@ == plain_chunk(text::texts(parts@)[j]),
        decreases parts@.len() - i,
    {
        out.push(
            ReadingChunk {
                text: owned(parts[i].as_str()),
                slot: VoiceSlot::Main,
                speed_offset: NO_OFFSET,
                caption: None,
                pause_after_ms: DEFAULT_PAUSE_MS,
            },
        );
        i += 1;
    }
    assert(chunk_views(out@) =~= text::texts(parts@).map_values(|t: Seq<char>| plain_chunk(t)));
    out
}

/// The chunks of one that is too long, from the `i`-th piece of its text on:
/// read like the whole, with its pause behind the last piece only.
pub open spec fn long_chunk_from(c: Chunk, p: Seq<Seq<char>>, i: int) -> Seq<Chunk>
    decreases p.len() - i,
    when 0 <= i <= p.len()
{
    if i == p.len() {
        Seq::empty()
    } else {
        let piece = Chunk {
            text: p[i],
            pause_after_ms: (if i == p.len() - 1 {
                c.pause_after_ms
            } else {
                0
            }),
            ..c
        };
        seq![piece] + long_chunk_from(c, p, i + 1)
    }
}

/// A chunk as it is, or in pieces where its text is too long.
pub open spec fn split_chunk(c: Chunk) -> Seq<Chunk> {
    if c.text.len() <= MAX_CHUNK_CHARS {
        seq![c]
    } else {
        long_chunk_from(c, chunk_texts(chunks_of(c.text, MAX_CHUNK_CHARS as int)), 0)
    }
}

/// The chunks from the `i`-th on, each split where it is too long.
pub open spec fn split_chunks_from(c: Seq<Chunk>, i: int) -> Seq<Chunk>
    decreases c.len() - i,
    when 0 <= i <= c.len()
{
    if i == c.len() {
        Seq::empty()
    } else {
        split_chunk(c[i]) + split_chunks_from(c, i + 1)
    }
}

/// A copy of an optional string.
pub fn copy_opt(o: &Option<String>) -> (r: Option<String>)
    ensures
        text::opt_text(r) == text::opt_text(*o),
{
    match o {
        Some(s) => Some(owned(s.as_str())),
        None => None,
    }
}

/// Splits the chunks that are too long. The pieces of one are read like the
/// whole; its pause comes behind the last piece, and none between them.
pub fn split_long_chunks(chunks: &Vec<ReadingChunk>) -> (r: Vec<ReadingChunk>)
    ensures
        chunk_views(r@) == split_chunks_from(chunk_views(chunks@), 0),
{
    let ghost all = chunk_views(chunks@);
    let mut out: Vec<ReadingChunk> = Vec::new();
    let mut i: usize = 0;
    assert(chunk_views(out@) + split_chunks_from(all, 0) =~= split_chunks_from(all, 0));
    while i < chunks.len()
        invariant
            i <= chunks@.len(),
            all == chunk_views(chunks@),
            chunk_views(out@) + split_chunks_from(all, i as int) == split_chunks_from(all, 0),
        decreases chunks@.len() - i,
    {
        let ghost prior = chunk_views(out@);
        let ghost rest = split_chunks_from(all, i + 1);
        let chunk = &chunks[i];
        assert(all[i as int] == chunk@);
        if char_count(chunk.text.as_str()) <= MAX_CHUNK_CHARS {
            out.push(
                ReadingChunk {
                    text: owned(chunk.text.as_str()),
                    slot: chunk.slot,
                    speed_offset: chunk.speed_offset,
                    caption: copy_opt(&chunk.caption),
                    pause_after_ms: chunk.pause_after_ms,
                },
            );
            assert(chunk_views(out@) =~= prior + seq![chunk@]);
        } else {
            let parts = split_reading_chunks(chunk.text.as_str());
            let ghost p = text::texts(parts@);
            let mut j: usize = 0;
            while j < parts.len()
                invariant
                    j <= parts@.len(),
                    p == text::texts(parts@),
                    chunk_views(out@) + long_chunk_from(chunk@, p, j as int) == prior
                        + long_chunk_from(chunk@, p, 0),
                decreases parts@.len() - j,
            {
                let ghost sofar = chunk_views(out@);
                let last = j == parts.len() - 1;
                out.push(
                    ReadingChunk {
                        text: owned(parts[j].as_str()),
                        slot: chunk.slot,
                        speed_offset: chunk.speed_offset,
                        caption: copy_opt(&chunk.caption),
                        pause_after_ms: if last {
                            chunk.pause_after_ms
                        } else {
                            0
                        },
                    },
                );
                let ghost piece = out@[out@.len() - 1]@;
                assert(p[j as int] == parts@[j as int]@);
                assert(chunk_views(out@) =~= sofar.push(piece));
                assert(chunk_views(out@) + long_chunk_from(chunk@, p, j + 1) =~= sofar
                    + long_chunk_from(chunk@, p, j as int));
                j += 1;
            }
            assert(chunk_views(out@) =~= prior + long_chunk_from(chunk@, p, 0));
        }
        assert(chunk_views(out@) == prior + split_chunk(chunk@));
        assert(chunk_views(out@) + rest =~= prior + (split_chunk(chunk@) + rest));
        i += 1;
    }
    assert(chunk_views(out@) + Seq::<Chunk>::empty() =~= chunk_views(out@));
    out
}

proof fn lemma_long_chunk(c: Chunk, p: Seq<Seq<char>>, i: int)
    requires
        0 <= i <= p.len(),
    ensures
        long_chunk_from(c, p, i).len() == p.len() - i,
        forall|j: int|
            0 <= j < p.len() - i ==> {
                let piece = #[trigger] long_chunk_from(c, p, i)[j];
                &&& piece.text == p[i + j]
                &&& piece.slot == c.slot
                &&& piece.speed_offset == c.speed_offset
                &&& piece.caption == c.caption
                &&& piece.pause_after_ms == (if i + j == p.len() - 1 {
                    c.pause_after_ms
                } else {
                    0
                })
            },
    decreases p.len() - i,
{
    if i < p.len() {
        lemma_long_chunk(c, p, i + 1);
        let all = long_chunk_from(c, p, i);
        assert forall|j: int| 0 <= j < p.len() - i implies {
            let piece = #[trigger] all[j];
            &&& piece.text == p[i + j]
            &&& piece.slot == c.slot
            &&& piece.speed_offset == c.speed_offset
            &&& piece.caption == c.caption
            &&& piece.pause_after_ms == (if i + j == p.len() - 1 {
                c.pause_after_ms
            } else {
                0
            })
        } by {
            if j > 0 {
                assert(all[j] == long_chunk_from(c, p, i + 1)[j - 1]);
            }
        }
    }
}

/// Each piece of a chunk that was too long is read like the whole; only the
/// last one is followed by the chunk's pause, the others by none.
pub proof fn long_chunks_pause_once(c: Chunk, j: int)
    requires
        0 <= j < split_chunk(c).len(),
    ensures
        split_chunk(c)[j].slot == c.slot,
        split_chunk(c)[j].speed_offset == c.speed_offset,
        split_chunk(c)[j].caption == c.caption,
        split_chunk(c)[j].pause_after_ms == (if j == split_chunk(c).len() - 1 {
            c.pause_after_ms
        } else {
            0
        }),
{
    lemma_long_chunk(c, chunk_texts(chunks_of(c.text, MAX_CHUNK_CHARS as int)), 0);
}

/// The characters of a text that are not white space.
pub open spec fn ink_of(s: Seq<char>) -> Seq<char> {
    s.filter(|c: char| !text::is_white(c))
}

proof fn lemma_ink_add(a: Seq<char>, b: Seq<char>)
    ensures
        ink_of(a + b) == ink_of(a) + ink_of(b),
{
    Seq::filter_distributes_over_add(a, b, |c: char| !text::is_white(c));
}

proof fn lemma_all_ink(s: Seq<char>)
    ensures
        (forall|j: int| 0 <= j < s.len() ==> !text::is_white(#[trigger] s[j])) ==> ink_of(s) == s,
        text::is_blank(s) == (ink_of(s).len() == 0),
    decreases s.len(),
{
    reveal(Seq::filter);
    if s.len() > 0 {
        let d = s.drop_last();
        lemma_all_ink(d);
        if forall|j: int| 0 <= j < s.len() ==> !text::is_white(#[trigger] s[j]) {
            assert forall|j: int| 0 <= j < d.len() implies !text::is_white(#[trigger] d[j]) by {
                assert(d[j] == s[j]);
            }
            assert(!text::is_white(s.last()));
            assert(ink_of(s) =~= s);
        }
        if text::is_blank(s) {
            assert forall|j: int| 0 <= j < d.len() implies text::is_white(#[trigger] d[j]) by {
                assert(d[j] == s[j]);
            }
            assert(text::is_white(s.last()));
        } else if text::is_blank(d) {
            assert forall|j: int| 0 <= j < s.len() - 1 implies text::is_white(#[trigger] s[j]) by {
                assert(d[j] == s[j]);
            }
            assert(!text::is_white(s.last()));
        }
    }
}

proof fn lemma_toks_text_add(a: Seq<Tok>, b: Seq<Tok>)
    ensures
        toks_text(a + b) == toks_text(a) + toks_text(b),
    decreases a.len(),
{
    if a.len() == 0 {
        assert(a + b =~= b);
        assert(toks_text(a) + toks_text(b) =~= toks_text(b));
    } else {
        let d = a.skip(1);
        lemma_toks_text_add(d, b);
        assert((a + b).skip(1) =~= d + b);
        lemma_toks_text_skip(a + b, 1, 1);
        lemma_toks_text_skip(a, 1, 1);
        assert((a + b)[0] == a[0]);
        assert(tok_text(a[0]) + (toks_text(d) + toks_text(b)) =~= tok_text(a[0]) + toks_text(d)
            + toks_text(b));
    }
}

proof fn lemma_tok_ink(t: Tok)
    requires
        toks_known(seq![t]),
    ensures
        ink_of(tok_text(t)) == toks_text(heard(seq![t])),
{
    reveal(Seq::filter);
    assert(seq![t][0] == t);
    let s = seq![t];
    assert(s.drop_last() =~= Seq::<Tok>::empty());
    assert(heard(Seq::empty()) =~= Seq::<Tok>::empty());
    if is_ink(t) {
        preprocess::lemma_emojis_show();
        assert(heard(s) =~= s);
        reveal_with_fuel(toks_text_from, 2);
        assert(toks_text(s) =~= tok_text(t));
        lemma_all_ink(tok_text(t));
        assert(forall|j: int|
            0 <= j < tok_text(t).len() ==> !text::is_white(#[trigger] tok_text(t)[j]));
    } else {
        assert(heard(s) =~= Seq::<Tok>::empty());
        lemma_all_ink(tok_text(t));
        assert(text::is_blank(tok_text(t)));
        assert(ink_of(tok_text(t)) =~= Seq::<char>::empty());
    }
}

proof fn lemma_ink_is_heard(t: Seq<Tok>)
    requires
        toks_known(t),
    ensures
        ink_of(toks_text(t)) == toks_text(heard(t)),
    decreases t.len(),
{
    if t.len() == 0 {
        assert(t =~= Seq::<Tok>::empty());
        lemma_heard_nothing(t);
        lemma_all_ink(Seq::empty());
        assert(ink_of(Seq::empty()) =~= Seq::<char>::empty());
    } else {
        let a = seq![t[0]];
        let d = t.skip(1);
        assert(t =~= a + d);
        lemma_known_sub(t, 0, 1);
        assert(t.subrange(0, 1) =~= a);
        lemma_known_sub(t, 1, t.len() as int);
        lemma_ink_is_heard(d);
        lemma_tok_ink(t[0]);
        lemma_toks_text_add(a, d);
        reveal_with_fuel(toks_text_from, 2);
        assert(toks_text(a) =~= tok_text(t[0]));
        lemma_ink_add(toks_text(a), toks_text(d));
        lemma_heard_add(a, d);
        lemma_toks_text_add(heard(a), heard(d));
    }
}

proof fn lemma_chunks_text(c: Seq<Seq<Tok>>)
    ensures
        chunk_texts(c).flatten() == toks_text(c.flatten()),
    decreases c.len(),
{
    if c.len() > 0 {
        let d = c.drop_first();
        lemma_chunks_text(d);
        assert(chunk_texts(c).drop_first() =~= chunk_texts(d));
        lemma_toks_text_add(c[0], d.flatten());
    }
}

proof fn lemma_flatten_known(c: Seq<Seq<Tok>>)
    requires
        all_known(c),
    ensures
        toks_known(c.flatten()),
    decreases c.len(),
{
    if c.len() > 0 {
        let d = c.drop_first();
        assert forall|i: int| 0 <= i < d.len() implies toks_known(#[trigger] d[i]) by {
            assert(d[i] == c[i + 1]);
        }
        lemma_flatten_known(d);
        assert(toks_known(c[0]));
        lemma_known_add(c[0], d.flatten());
    }
}

proof fn lemma_packed_known(p: Seq<Seq<Tok>>, k: int, cur: Seq<Tok>, max: int)
    requires
        0 <= k <= p.len(),
        all_known(p),
        toks_known(cur),
    ensures
        all_known(packed_from(p, k, cur, max)),
    decreases p.len() - k,
{
    if k < p.len() {
        if cur.len() + p[k].len() > max && cur.len() > 0 {
            lemma_packed_known(p, k + 1, p[k], max);
            let rest = packed_from(p, k + 1, p[k], max);
            let all = emitted(cur) + rest;
            assert forall|i: int| 0 <= i < all.len() implies toks_known(#[trigger] all[i]) by {
                if i >= emitted(cur).len() {
                    assert(all[i] == rest[i - emitted(cur).len()]);
                }
            }
        } else {
            lemma_known_add(cur, p[k]);
            lemma_packed_known(p, k + 1, cur + p[k], max);
        }
    }
}

proof fn lemma_chunks_known(s: Seq<char>, max: int)
    requires
        max > 0,
    ensures
        all_known(chunks_of(s, max)),
{
    lemma_tokens_known(s, 0);
    lemma_sentences_known(tokens(s), 0);
    lemma_fitted_fit(sentences_of(tokens(s)), 0, max);
    lemma_packed_known(pieces_of(s, max), 0, Seq::empty(), max);
}

/// No character that is not white space is lost, doubled or moved: put together,
/// the chunks of a text hold exactly those of the text, in their order.
pub proof fn chunks_keep_every_character(s: Seq<char>, max: int)
    requires
        max > 0,
    ensures
        ink_of(chunk_texts(chunks_of(s, max)).flatten()) == ink_of(s),
{
    let c = chunks_of(s, max);
    lemma_chunks_known(s, max);
    lemma_flatten_known(c);
    lemma_chunks_text(c);
    lemma_ink_is_heard(c.flatten());
    chunks_keep_what_is_heard(s, max);
    lemma_tokens_known(s, 0);
    lemma_ink_is_heard(tokens(s));
    tokens_rejoin(s);
}

/// What the chunks of a list say, one after the other.
pub open spec fn texts_of(c: Seq<Chunk>) -> Seq<Seq<char>> {
    Seq::new(c.len(), |j: int| c[j].text)
}

/// A chunk of at most 120 characters stays as it is. One that is longer is read
/// whole, in pieces that are each short enough: put together, they hold every
/// character of its text that is not white space, in order and none twice.
pub proof fn long_chunks_are_read_whole(c: Chunk)
    ensures
        c.text.len() <= 120 ==> split_chunk(c) == seq![c],
        c.text.len() > 120 ==> texts_of(split_chunk(c)) == chunk_texts(chunks_of(c.text, 120)),
        c.text.len() > 120 ==> ink_of(texts_of(split_chunk(c)).flatten()) == ink_of(c.text),
        !text::is_blank(c.text) ==> split_chunk(c).len() > 0 && split_chunk(c).last().pause_after_ms
            == c.pause_after_ms,
{
    if c.text.len() > 120 {
        let p = chunk_texts(chunks_of(c.text, 120));
        lemma_long_chunk(c, p, 0);
        assert(texts_of(split_chunk(c)) =~= p);
        chunks_keep_every_character(c.text, 120);
        if !text::is_blank(c.text) {
            lemma_all_ink(c.text);
            if p.len() == 0 {
                lemma_all_ink(Seq::empty());
            }
            long_chunks_pause_once(c, split_chunk(c).len() - 1);
        }
    }
}

/// Chunks are split one by one, in their order, and none is left out.
pub proof fn chunks_are_split_in_order(c: Seq<Chunk>, i: int)
    requires
        0 <= i <= c.len(),
    ensures
        split_chunks_from(c, i) == Seq::new(
            (c.len() - i) as nat,
            |k: int| split_chunk(c[i + k]),
        ).flatten(),
    decreases c.len() - i,
{
    let t = Seq::new((c.len() - i) as nat, |k: int| split_chunk(c[i + k]));
    if i == c.len() {
        assert(t =~= Seq::<Seq<Chunk>>::empty());
    } else {
        chunks_are_split_in_order(c, i + 1);
        assert(t.drop_first() =~= Seq::new(
            (c.len() - (i + 1)) as nat,
            |k: int| split_chunk(c[i + 1 + k]),
        ));
        assert(t[0] == split_chunk(c[i]));
    }
}

/// The text is a sentence by itself: up to `a` it holds neither a line break nor
/// the end of a sentence, from there to `b` ends of sentences, and behind them, if
/// there are any, annotations alone.
pub open spec fn is_sentence(t: Seq<Tok>, a: int, b: int) -> bool {
    &&& 0 <= a <= b <= t.len()
    &&& forall|j: int| 0 <= j < a ==> !is_stop(#[trigger] t[j]) && !is_break(t[j])
    &&& forall|j: int| a <= j < b ==> is_stop(#[trigger] t[j])
    &&& forall|j: int| b <= j < t.len() ==> (#[trigger] t[j]) is Emoji
    &&& a == b ==> b == t.len()
}

proof fn lemma_runs(t: Seq<Tok>, i: int)
    requires
        0 <= i <= t.len(),
    ensures
        forall|j: int| i <= j < stops_end(t, i) ==> is_stop(#[trigger] t[j]),
        forall|j: int| i <= j < emojis_end(t, i) ==> (#[trigger] t[j]) is Emoji,
        i < t.len() && is_stop(t[i]) ==> stops_end(t, i) > i,
    decreases t.len() - i,
{
    if i < t.len() {
        lemma_runs(t, i + 1);
        lemma_runs_end(t, i + 1);
    }
}

proof fn lemma_sentence_shape(t: Seq<Tok>, i: int) -> (r: (int, int))
    requires
        0 <= i <= t.len(),
    ensures
        is_sentence(t.subrange(i, sentence_end(t, i)), r.0, r.1),
    decreases t.len() - i,
{
    lemma_sentence_end(t, i);
    let e = sentence_end(t, i);
    let x = t.subrange(i, e);
    if i == t.len() || is_break(t[i]) {
        (0, 0)
    } else if is_stop(t[i]) {
        let b = stops_end(t, i);
        lemma_runs(t, i);
        lemma_runs_end(t, i);
        lemma_runs(t, b);
        lemma_runs_end(t, b);
        (0, b - i)
    } else {
        let (a, b) = lemma_sentence_shape(t, i + 1);
        lemma_sentence_end(t, i + 1);
        let y = t.subrange(i + 1, e);
        assert forall|j: int| 0 <= j < a + 1 implies !is_stop(#[trigger] x[j]) && !is_break(x[j]) by {
            if j > 0 {
                assert(x[j] == y[j - 1]);
            }
        }
        assert forall|j: int| a + 1 <= j < b + 1 implies is_stop(#[trigger] x[j]) by {
            assert(x[j] == y[j - 1]);
        }
        assert forall|j: int| b + 1 <= j < x.len() implies (#[trigger] x[j]) is Emoji by {
            assert(x[j] == y[j - 1]);
        }
        (a + 1, b + 1)
    }
}

proof fn lemma_sentences_shape(t: Seq<Tok>, i: int, k: int) -> (r: (int, int))
    requires
        0 <= i <= t.len(),
        0 <= k < sentences_from(t, i).len(),
    ensures
        is_sentence(sentences_from(t, i)[k], r.0, r.1),
        has_ink(sentences_from(t, i)[k]),
    decreases t.len() - i,
{
    lemma_sentence_end(t, i);
    let x = t.subrange(i, sentence_end(t, i));
    let rest = sentences_from(t, sentence_next(t, i));
    let n = kept(x).len() as int;
    if k < n {
        lemma_sentence_shape(t, i)
    } else {
        assert(sentences_from(t, i)[k] == rest[k - n]);
        lemma_sentences_shape(t, sentence_next(t, i), k - n)
    }
}

/// Each sentence of a text holds one end of a sentence at most, with the
/// annotations behind it, and no line break; something in it is heard.
pub proof fn every_sentence_ends_once(t: Seq<Tok>, k: int) -> (r: (int, int))
    requires
        0 <= k < sentences_of(t).len(),
    ensures
        is_sentence(sentences_of(t)[k], r.0, r.1),
        has_ink(sentences_of(t)[k]),
{
    lemma_sentences_shape(t, 0, k)
}

proof fn lemma_runs_shift(x: Seq<Tok>, rest: Seq<Tok>, k: int)
    requires
        0 <= k <= rest.len(),
    ensures
        stops_end(x + rest, x.len() + k) == x.len() + stops_end(rest, k),
        emojis_end(x + rest, x.len() + k) == x.len() + emojis_end(rest, k),
    decreases rest.len() - k,
{
    if k < rest.len() {
        assert((x + rest)[x.len() + k] == rest[k]);
        lemma_runs_shift(x, rest, k + 1);
    }
}

proof fn lemma_sentence_shift(x: Seq<Tok>, rest: Seq<Tok>, k: int)
    requires
        0 <= k <= rest.len(),
    ensures
        sentence_end(x + rest, x.len() + k) == x.len() + sentence_end(rest, k),
        sentence_next(x + rest, x.len() + k) == x.len() + sentence_next(rest, k),
    decreases rest.len() - k,
{
    lemma_sentence_end(rest, k);
    if k < rest.len() {
        assert((x + rest)[x.len() + k] == rest[k]);
        lemma_runs_end(rest, k);
        lemma_runs_shift(x, rest, k);
        lemma_runs_shift(x, rest, stops_end(rest, k));
        if !is_break(rest[k]) && !is_stop(rest[k]) {
            lemma_sentence_shift(x, rest, k + 1);
        }
    }
    let e = sentence_end(rest, k);
    if e < rest.len() {
        assert((x + rest)[x.len() + e] == rest[e]);
    }
}

proof fn lemma_sentences_shift(x: Seq<Tok>, rest: Seq<Tok>, k: int)
    requires
        0 <= k <= rest.len(),
    ensures
        sentences_from(x + rest, x.len() + k) == sentences_from(rest, k),
    decreases rest.len() - k,
{
    if k < rest.len() {
        lemma_sentence_end(rest, k);
        lemma_sentence_shift(x, rest, k);
        lemma_sentences_shift(x, rest, sentence_next(rest, k));
        let e = sentence_end(rest, k);
        assert((x + rest).subrange(x.len() + k, x.len() + e) =~= rest.subrange(k, e));
    }
}

proof fn lemma_emojis_whole(t: Seq<Tok>, a: int, b: int)
    requires
        0 <= a <= b <= t.len(),
        forall|j: int| a <= j < b ==> (#[trigger] t[j]) is Emoji,
        b < t.len() ==> !(t[b] is Emoji),
    ensures
        emojis_end(t, a) == b,
    decreases b - a,
{
    if a < b {
        lemma_emojis_whole(t, a + 1, b);
    }
}

proof fn lemma_runs_whole(t: Seq<Tok>, i: int, a: int, b: int)
    requires
        0 <= i <= a <= b <= t.len(),
        forall|j: int| i <= j < a ==> is_stop(#[trigger] t[j]),
        forall|j: int| a <= j < b ==> (#[trigger] t[j]) is Emoji,
        b < t.len() ==> !(t[b] is Emoji),
        a == b && b < t.len() ==> !is_stop(t[b]),
    ensures
        stops_end(t, i) == a,
        emojis_end(t, a) == b,
    decreases b - i,
{
    if i < a {
        lemma_runs_whole(t, i + 1, a, b);
    } else {
        lemma_emojis_whole(t, a, b);
    }
}

proof fn lemma_sentence_whole(t: Seq<Tok>, i: int, a: int, b: int, e: int)
    requires
        0 <= i <= a <= b <= e <= t.len(),
        forall|j: int| i <= j < a ==> !is_stop(#[trigger] t[j]) && !is_break(t[j]),
        forall|j: int| a <= j < b ==> is_stop(#[trigger] t[j]),
        forall|j: int| b <= j < e ==> (#[trigger] t[j]) is Emoji,
        a == b ==> b == e,
        e < t.len() ==> is_break(t[e]) || (a < b && !(t[e] is Emoji) && (b == e ==> !is_stop(t[e]))),
    ensures
        sentence_end(t, i) == e,
    decreases a - i,
{
    if i < a {
        lemma_sentence_whole(t, i + 1, a, b, e);
    } else if a < b {
        assert(is_stop(t[a]));
        lemma_runs_whole(t, a, b, e);
    }
}

/// Sentences are taken from the front of a text one by one, each as far as it
/// goes: up to a line break, or behind its end and the annotations that follow;
/// with nothing to end it, up to the end of the text.
pub proof fn sentences_are_taken_whole(x: Seq<Tok>, a: int, b: int, rest: Seq<Tok>)
    requires
        is_sentence(x, a, b),
        has_ink(x),
        rest.len() > 0 ==> is_break(rest[0]) || (a < b && !(rest[0] is Emoji) && (b == x.len()
            ==> !is_stop(rest[0]))),
    ensures
        sentences_of(x + rest) == seq![x] + sentences_of(rest),
        rest.len() > 0 && is_break(rest[0]) ==> sentences_of(rest) == sentences_of(rest.skip(1)),
{
    let t = x + rest;
    let e = x.len() as int;
    assert(x.len() > 0);
    if rest.len() > 0 {
        assert(t[e] == rest[0]);
    }
    assert forall|j: int| 0 <= j < a implies !is_stop(#[trigger] t[j]) && !is_break(t[j]) by {
        assert(t[j] == x[j]);
    }
    assert forall|j: int| a <= j < b implies is_stop(#[trigger] t[j]) by {
        assert(t[j] == x[j]);
    }
    assert forall|j: int| b <= j < e implies (#[trigger] t[j]) is Emoji by {
        assert(t[j] == x[j]);
    }
    lemma_sentence_whole(t, 0, a, b, e);
    assert(t.subrange(0, e) =~= x);
    lemma_sentence_end(t, 0);
    lemma_sentences_shift(x, rest, 0);
    if rest.len() > 0 && is_break(rest[0]) {
        let r1 = rest.skip(1);
        lemma_sentences_shift(x + seq![rest[0]], r1, 0);
        assert(x + seq![rest[0]] + r1 =~= t);
        lemma_sentences_shift(seq![rest[0]], r1, 0);
        assert(seq![rest[0]] + r1 =~= rest);
        assert(rest.subrange(0, 0) =~= Seq::<Tok>::empty());
        assert(kept(Seq::<Tok>::empty()) =~= Seq::<Seq<Tok>>::empty());
        assert(sentences_of(rest) =~= sentences_of(r1));
        assert(sentences_of(t) =~= seq![x] + sentences_of(r1));
    }
}

proof fn lemma_block_parts(t: Seq<Tok>, max: int, k: int)
    requires
        max > 0,
        t.len() > 0,
        0 <= k < blocks(t, max).len(),
        forall|j: int| 0 <= j < t.len() - 1 ==> #[trigger] t[j] != Tok::Ch('、'),
    ensures
        0 < blocks(t, max)[k].len() <= max,
        k < blocks(t, max).len() - 1 ==> blocks(t, max)[k].len() == max,
        k == blocks(t, max).len() - 1 ==> blocks(t, max)[k].last() == t.last(),
        forall|j: int|
            0 <= j < blocks(t, max)[k].len() - 1 ==> #[trigger] blocks(t, max)[k][j] != Tok::Ch(
                '、',
            ),
    decreases t.len(),
{
    if t.len() > max {
        let d = t.skip(max);
        assert forall|j: int| 0 <= j < d.len() - 1 implies #[trigger] d[j] != Tok::Ch('、') by {
            assert(d[j] == t[max + j]);
        }
        if k > 0 {
            lemma_block_parts(d, max, k - 1);
            assert(blocks(t, max)[k] == blocks(d, max)[k - 1]);
            assert(d.last() == t.last());
        } else {
            lemma_blocks_some(d, max);
        }
    }
}

proof fn lemma_blocks_some(t: Seq<Tok>, max: int)
    requires
        max > 0,
    ensures
        blocks(t, max).len() > 0,
{
}

proof fn lemma_comma(t: Seq<Tok>, i: int)
    requires
        0 <= i < t.len(),
    ensures
        comma_end(t, i) < t.len() ==> t[comma_end(t, i) - 1] == Tok::Ch('、'),
        forall|j: int| i <= j < comma_end(t, i) - 1 ==> #[trigger] t[j] != Tok::Ch('、'),
    decreases t.len() - i,
{
    if t[i] != Tok::Ch('、') {
        if i + 1 < t.len() {
            lemma_comma_end(t, i + 1);
            lemma_comma(t, i + 1);
        } else {
            assert(comma_end(t, i + 1) == i + 1);
        }
    }
}

proof fn lemma_phrase_parts(t: Seq<Tok>, i: int, max: int, k: int)
    requires
        max > 0,
        0 <= i <= t.len(),
        0 <= k < phrases_from(t, i, max).len(),
    ensures
        ({
            let p = phrases_from(t, i, max);
            &&& 0 < p[k].len() <= max
            &&& k < p.len() - 1 ==> p[k].last() == Tok::Ch('、') || p[k].len() == max
            &&& forall|j: int| 0 <= j < p[k].len() - 1 ==> #[trigger] p[k][j] != Tok::Ch('、')
        }),
    decreases t.len() - i,
{
    if i < t.len() {
        lemma_comma_end(t, i);
        lemma_comma(t, i);
        let e = comma_end(t, i);
        let x = t.subrange(i, e);
        let b = blocks(x, max);
        let rest = phrases_from(t, e, max);
        let p = phrases_from(t, i, max);
        assert(p == b + rest);
        assert forall|j: int| 0 <= j < x.len() - 1 implies #[trigger] x[j] != Tok::Ch('、') by {
            assert(x[j] == t[i + j]);
        }
        if k < b.len() {
            lemma_block_parts(x, max, k);
            assert(p[k] == b[k]);
            assert(x.last() == t[e - 1]);
            if e == t.len() {
                assert(rest.len() == 0);
            }
        } else {
            lemma_phrase_parts(t, e, max, k - b.len());
            assert(p[k] == rest[k - b.len()]);
        }
    }
}

/// A sentence that is too long is cut behind each of its commas, and else only
/// where a piece is full; the pieces make up the sentence.
pub proof fn phrases_end_at_commas(t: Seq<Tok>, max: int, k: int)
    requires
        max > 0,
        0 <= k < phrases_from(t, 0, max).len(),
    ensures
        phrases_from(t, 0, max).flatten() == t,
        0 < phrases_from(t, 0, max)[k].len() <= max,
        k < phrases_from(t, 0, max).len() - 1 ==> phrases_from(t, 0, max)[k].last() == Tok::Ch('、')
            || phrases_from(t, 0, max)[k].len() == max,
        forall|j: int|
            0 <= j < phrases_from(t, 0, max)[k].len() - 1 ==> #[trigger] phrases_from(
                t,
                0,
                max,
            )[k][j] != Tok::Ch('、'),
{
    lemma_phrases_flatten(t, 0, max);
    assert(t.skip(0) =~= t);
    lemma_phrase_parts(t, 0, max, k);
}

proof fn lemma_flatten_len(s: Seq<Seq<Tok>>, t: Seq<Seq<Tok>>)
    ensures
        (s + t).flatten() == s.flatten() + t.flatten(),
{
    vstd::seq_lib::lemma_flatten_concat(s, t);
}

proof fn lemma_sentences_len(t: Seq<Tok>, i: int)
    requires
        0 <= i <= t.len(),
    ensures
        sentences_from(t, i).flatten().len() <= t.len() - i,
        forall|k: int|
            0 <= k < sentences_from(t, i).len() ==> (#[trigger] sentences_from(t, i)[k]).len()
                <= t.len() - i,
    decreases t.len() - i,
{
    if i < t.len() {
        lemma_sentence_end(t, i);
        let x = t.subrange(i, sentence_end(t, i));
        let n = sentence_next(t, i);
        lemma_sentences_len(t, n);
        lemma_flatten_len(kept(x), sentences_from(t, n));
        if has_ink(x) {
            kept(x).lemma_flatten_one_element();
        }
        let all = sentences_from(t, i);
        assert forall|k: int| 0 <= k < all.len() implies (#[trigger] all[k]).len() <= t.len() - i by {
            if k >= kept(x).len() {
                assert(all[k] == sentences_from(t, n)[k - kept(x).len()]);
            }
        }
    }
}

proof fn lemma_fitted_same(s: Seq<Seq<Tok>>, k: int, max: int)
    requires
        0 <= k <= s.len(),
        all_within(s, max),
    ensures
        fitted_from(s, k, max) == s.skip(k),
    decreases s.len() - k,
{
    if k < s.len() {
        lemma_fitted_same(s, k + 1, max);
        assert(s[k].len() <= max);
        assert(fitted_from(s, k, max) =~= s.skip(k));
    } else {
        assert(s.skip(k) =~= Seq::<Seq<Tok>>::empty());
    }
}

proof fn lemma_packed_one(p: Seq<Seq<Tok>>, k: int, cur: Seq<Tok>, max: int)
    requires
        0 <= k <= p.len(),
        cur.len() + p.skip(k).flatten().len() <= max,
    ensures
        packed_from(p, k, cur, max).len() <= 1,
    decreases p.len() - k,
{
    if k < p.len() {
        assert(p.skip(k).drop_first() =~= p.skip(k + 1));
        assert(p.skip(k).flatten() == p[k] + p.skip(k + 1).flatten());
        lemma_packed_one(p, k + 1, cur + p[k], max);
    }
}

/// A text that is short enough, and not blank, is one chunk.
pub proof fn a_short_text_is_one_chunk(s: Seq<char>, max: int)
    requires
        max > 0,
        tokens(s).len() <= max,
        !text::is_blank(s),
    ensures
        chunks_of(s, max).len() == 1,
{
    let t = tokens(s);
    let st = sentences_of(t);
    lemma_sentences_len(t, 0);
    lemma_fitted_same(st, 0, max);
    assert(st.skip(0) =~= st);
    lemma_packed_one(st, 0, Seq::empty(), max);
    chunks_keep_every_character(s, max);
    lemma_all_ink(s);
    lemma_all_ink(Seq::empty());
}

/// A text of one sentence, short enough, is read as it stands.
pub proof fn a_short_sentence_is_read_as_it_is(s: Seq<char>, max: int, a: int, b: int)
    requires
        max > 0,
        tokens(s).len() <= max,
        !text::is_blank(s),
        is_sentence(tokens(s), a, b),
    ensures
        chunk_texts(chunks_of(s, max)) == seq![s],
{
    let t = tokens(s);
    lemma_tokens_known(s, 0);
    tokens_rejoin(s);
    lemma_ink_is_heard(t);
    lemma_all_ink(s);
    if !has_ink(t) {
        lemma_heard_nothing(t);
    }
    sentences_are_taken_whole(t, a, b, Seq::empty());
    assert(t + Seq::<Tok>::empty() =~= t);
    assert(seq![t] + Seq::<Seq<Tok>>::empty() =~= seq![t]);
    assert(sentences_of(t) == seq![t]);
    reveal_with_fuel(fitted_from, 2);
    assert(pieces_of(s, max) =~= seq![t]);
    reveal_with_fuel(packed_from, 2);
    assert(Seq::<Tok>::empty() + t =~= t);
    assert(chunk_texts(chunks_of(s, max)) =~= seq![s]);
}

proof fn lemma_packed_filled(p: Seq<Seq<Tok>>, k: int, cur: Seq<Tok>, max: int)
    requires
        0 <= k <= p.len(),
        forall|j: int| 0 <= j < p.len() ==> (#[trigger] p[j]).len() > 0,
        forall|j: int| 0 <= j < p.len() ==> !text::is_blank(toks_text(#[trigger] p[j])),
        cur.len() > 0 ==> !text::is_blank(toks_text(cur)),
    ensures
        cur.len() > 0 ==> packed_from(p, k, cur, max).len() > 0 && packed_from(
            p,
            k,
            cur,
            max,
        )[0].len() >= cur.len(),
        forall|i: int|
            0 <= i < packed_from(p, k, cur, max).len() - 1 ==> (#[trigger] packed_from(
                p,
                k,
                cur,
                max,
            )[i]).len() + packed_from(p, k, cur, max)[i + 1].len() > max,
    decreases p.len() - k,
{
    if k < p.len() {
        if cur.len() + p[k].len() > max && cur.len() > 0 {
            lemma_packed_filled(p, k + 1, p[k], max);
            let rest = packed_from(p, k + 1, p[k], max);
            let all = packed_from(p, k, cur, max);
            assert(all =~= seq![cur] + rest);
            assert forall|i: int| 0 <= i < all.len() - 1 implies (#[trigger] all[i]).len() + all[i
                + 1].len() > max by {
                if i > 0 {
                    assert(all[i] == rest[i - 1]);
                    assert(all[i + 1] == rest[i]);
                } else {
                    assert(all[1] == rest[0]);
                }
            }
        } else {
            let next = cur + p[k];
            lemma_toks_text_add(cur, p[k]);
            lemma_ink_add(toks_text(cur), toks_text(p[k]));
            lemma_all_ink(toks_text(p[k]));
            lemma_all_ink(toks_text(next));
            lemma_packed_filled(p, k + 1, next, max);
        }
    }
}

/// No chunk is cut short: in a text whose sentences are all short enough, two
/// chunks that follow each other would not have fitted into one.
pub proof fn chunks_are_filled(s: Seq<char>, max: int, i: int)
    requires
        max > 0,
        all_within(sentences_of(tokens(s)), max),
        0 <= i < chunks_of(s, max).len() - 1,
    ensures
        chunks_of(s, max)[i].len() + chunks_of(s, max)[i + 1].len() > max,
{
    let p = sentences_of(tokens(s));
    lemma_tokens_known(s, 0);
    lemma_sentences_known(tokens(s), 0);
    lemma_fitted_same(p, 0, max);
    assert(p.skip(0) =~= p);
    assert forall|j: int| 0 <= j < p.len() implies (#[trigger] p[j]).len() > 0
        && !text::is_blank(toks_text(p[j])) by {
        let _ = every_sentence_ends_once(tokens(s), j);
        assert(toks_known(p[j]));
        if text::is_blank(toks_text(p[j])) {
            lemma_ink_shows(p[j], 0);
        }
    }
    lemma_packed_filled(p, 0, Seq::empty(), max);
}

/// The chunk is made of pieces that follow each other.
pub open spec fn is_run(c: Seq<Tok>, p: Seq<Seq<Tok>>) -> bool {
    exists|a: int, b: int| 0 <= a <= b <= p.len() && c == #[trigger] p.subrange(a, b).flatten()
}

proof fn lemma_packed_runs(p: Seq<Seq<Tok>>, k: int, a: int, cur: Seq<Tok>, max: int)
    requires
        0 <= a <= k <= p.len(),
        cur == p.subrange(a, k).flatten(),
    ensures
        forall|i: int|
            0 <= i < packed_from(p, k, cur, max).len() ==> is_run(
                #[trigger] packed_from(p, k, cur, max)[i],
                p,
            ),
    decreases p.len() - k,
{
    assert(is_run(cur, p)) by {
        assert(cur == p.subrange(a, k).flatten());
    }
    if k < p.len() {
        assert(p.subrange(k, k + 1) =~= seq![p[k]]);
        seq![p[k]].lemma_flatten_one_element();
        if cur.len() + p[k].len() > max && cur.len() > 0 {
            lemma_packed_runs(p, k + 1, k, p[k], max);
            let rest = packed_from(p, k + 1, p[k], max);
            let all = packed_from(p, k, cur, max);
            assert forall|i: int| 0 <= i < all.len() implies is_run(#[trigger] all[i], p) by {
                if i >= emitted(cur).len() {
                    assert(all[i] == rest[i - emitted(cur).len()]);
                } else {
                    assert(all[i] == cur);
                }
            }
        } else {
            assert(p.subrange(a, k + 1) =~= p.subrange(a, k) + seq![p[k]]);
            lemma_flatten_len(p.subrange(a, k), seq![p[k]]);
            lemma_packed_runs(p, k + 1, a, cur + p[k], max);
            assert(packed_from(p, k, cur, max) == packed_from(p, k + 1, cur + p[k], max));
        }
    } else {
        assert(packed_from(p, k, cur, max) == emitted(cur));
        assert(emitted(cur).len() > 0 ==> emitted(cur) == seq![cur]);
    }
}

/// A text whose sentences are all short enough is cut between sentences only: each
/// chunk is made of whole sentences that follow each other.
pub proof fn chunks_hold_whole_sentences(s: Seq<char>, max: int, i: int)
    requires
        max > 0,
        all_within(sentences_of(tokens(s)), max),
        0 <= i < chunks_of(s, max).len(),
    ensures
        is_run(chunks_of(s, max)[i], sentences_of(tokens(s))),
{
    let p = sentences_of(tokens(s));
    lemma_fitted_same(p, 0, max);
    assert(p.skip(0) =~= p);
    assert(p.subrange(0, 0).flatten() =~= Seq::<Tok>::empty());
    lemma_packed_runs(p, 0, 0, Seq::empty(), max);
}

/// A chunk of plain text is read by the main voice at its own speed, without a
/// caption, and followed by half a second of silence.
pub proof fn plain_text_is_read_plainly(t: Seq<char>)
    ensures
        plain_chunk(t).text == t,
        plain_chunk(t).slot == VoiceSlot::Main,
        plain_chunk(t).speed_offset == 0,
        plain_chunk(t).caption is None,
        plain_chunk(t).pause_after_ms == 500,
{
}

/// What `encoding_rs` makes of bytes taken as UTF-8: the text, and whether
/// anything was malformed.
pub uninterp spec fn utf8_decoding(bytes: Seq<u8>) -> (Seq<char>, bool);

/// What `encoding_rs` makes of bytes taken as Shift_JIS: the text, and whether
/// anything was malformed.
pub uninterp spec fn shift_jis_decoding(bytes: Seq<u8>) -> (Seq<char>, bool);

/// The bytes begin with the byte order mark of UTF-16, in either byte order.
pub open spec fn has_utf16_mark(b: Seq<u8>) -> bool {
    b.len() >= 2 && ((b[0] == 0xFF && b[1] == 0xFE) || (b[0] == 0xFE && b[1] == 0xFF))
}

/// The bytes without the byte order mark of UTF-8, where they begin with it.
pub open spec fn without_utf8_mark(b: Seq<u8>) -> Seq<u8> {
    if b.len() >= 3 && b[0] == 0xEF && b[1] == 0xBB && b[2] == 0xBF {
        b.skip(3)
    } else {
        b
    }
}

/// `encoding_rs::Encoding::decode` on `encoding_rs::UTF_8`: the text, and
/// whether anything in the bytes was malformed. Bytes that do not begin with
/// the mark of UTF-16 are malformed exactly where, behind the mark of UTF-8 if
/// there is one, they are not UTF-8; where they are, the text is what they
/// encode. Inputs near the size of the address space, on which the size of its
/// buffer would overflow, are left out.
#[verifier::external_body]
fn decode_utf8(bytes: &Vec<u8>) -> (r: (String, bool))
    requires
        bytes@.len() <= usize::MAX / 8,
    ensures
        (r.0@, r.1) == utf8_decoding(bytes@),
        !has_utf16_mark(bytes@) ==> r.1 == !vstd::utf8::valid_utf8(without_utf8_mark(bytes@)),
        !has_utf16_mark(bytes@) && !r.1 ==> r.0@ == vstd::utf8::decode_utf8(
            without_utf8_mark(bytes@),
        ),
{
    let (text, _, had_errors) = encoding_rs::UTF_8.decode(bytes);
    (text.into_owned(), had_errors)
}

/// `encoding_rs::Encoding::decode` on `encoding_rs::SHIFT_JIS`: the text, and
/// whether anything in the bytes was malformed. Inputs near the size of the
/// address space, on which the size of its buffer would overflow, are left out.
#[verifier::external_body]
fn decode_shift_jis(bytes: &Vec<u8>) -> (r: (String, bool))
    requires
        bytes@.len() <= usize::MAX / 8,
    ensures
        (r.0@, r.1) == shift_jis_decoding(bytes@),
{
    let (text, _, had_errors) = encoding_rs::SHIFT_JIS.decode(bytes);
    (text.into_owned(), had_errors)
}

/// What is said of bytes that are neither UTF-8 nor Shift_JIS.
pub const UNKNOWN_ENCODING: &'static str =
    "文字コードを判定できません (UTF-8 / Shift_JIS のみ対応)";

/// The first of the two decodings without an error.
pub open spec fn clean_decoding(utf8: (Seq<char>, bool), sjis: (Seq<char>, bool)) -> Result<
    Seq<char>,
    Seq<char>,
> {
    if !utf8.1 {
        Ok(utf8.0)
    } else if !sjis.1 {
        Ok(sjis.0)
    } else {
        Err(UNKNOWN_ENCODING@)
    }
}

/// The first of the two decodings without an error.
pub fn pick_clean(utf8: (String, bool), sjis: (String, bool)) -> (r: Result<String, String>)
    ensures
        preprocess::result_text(r) == clean_decoding((utf8.0@, utf8.1), (sjis.0@, sjis.1)),
{
    if !utf8.1 {
        Ok(utf8.0)
    } else if !sjis.1 {
        Ok(sjis.0)
    } else {
        Err(owned(UNKNOWN_ENCODING))
    }
}

/// What a file's bytes say: read as UTF-8, with or without its mark, or else as
/// Shift_JIS. Bytes that begin with the mark of UTF-16 are neither.
pub open spec fn decoded(bytes: Seq<u8>) -> Result<Seq<char>, Seq<char>> {
    if has_utf16_mark(bytes) {
        Err(UNKNOWN_ENCODING@)
    } else {
        clean_decoding(utf8_decoding(bytes), shift_jis_decoding(bytes))
    }
}

/// Whether the bytes begin with the byte order mark of UTF-16.
fn begins_with_utf16_mark(bytes: &Vec<u8>) -> (r: bool)
    ensures
        r == has_utf16_mark(bytes@),
{
    bytes.len() >= 2 && ((bytes[0] == 0xFF && bytes[1] == 0xFE) || (bytes[0] == 0xFE && bytes[1]
        == 0xFF))
}

/// Decodes a file's bytes: as UTF-8, with or without its mark, or else as
/// Shift_JIS. Bytes that are UTF-8 give the text that they encode; those that
/// begin with the mark of UTF-16, which would be read by that mark otherwise, are
/// refused.
pub fn decode_bytes(bytes: &Vec<u8>) -> (r: Result<String, String>)
    requires
        bytes@.len() <= usize::MAX / 8,
    ensures
        preprocess::result_text(r) == decoded(bytes@),
        has_utf16_mark(bytes@) ==> r is Err,
        !has_utf16_mark(bytes@) && vstd::utf8::valid_utf8(without_utf8_mark(bytes@)) ==> preprocess::result_text(
            r,
        ) == Ok::<Seq<char>, Seq<char>>(vstd::utf8::decode_utf8(without_utf8_mark(bytes@))),
{
    if begins_with_utf16_mark(bytes) {
        return Err(owned(UNKNOWN_ENCODING));
    }
    let utf8 = decode_utf8(bytes);
    let sjis = decode_shift_jis(bytes);
    pick_clean(utf8, sjis)
}

/// The text of a line that a program wrote: as `clean_decoding`, and where
/// neither reading is without an error, as UTF-8 with its replacements.
pub open spec fn line_decoding(utf8: (Seq<char>, bool), sjis: (Seq<char>, bool)) -> Seq<char> {
    if utf8.1 && !sjis.1 {
        sjis.0
    } else {
        utf8.0
    }
}

/// The text of an output line, of the two ways to read its bytes.
pub fn pick_line(utf8: (String, bool), sjis: (String, bool)) -> (r: String)
    ensures
        r@ == line_decoding((utf8.0@, utf8.1), (sjis.0@, sjis.1)),
{
    if utf8.1 && !sjis.1 {
        sjis.0
    } else {
        utf8.0
    }
}

/// Decodes a line that a program wrote, in whichever encoding it used; what
/// cannot be read shows as replacement characters.
pub fn decode_output_line(bytes: &Vec<u8>) -> (r: String)
    requires
        bytes@.len() <= usize::MAX / 8,
    ensures
        r@ == line_decoding(utf8_decoding(bytes@), shift_jis_decoding(bytes@)),
        !has_utf16_mark(bytes@) && vstd::utf8::valid_utf8(without_utf8_mark(bytes@)) ==> r@
            == vstd::utf8::decode_utf8(without_utf8_mark(bytes@)),
{
    let utf8 = decode_utf8(bytes);
    let sjis = decode_shift_jis(bytes);
    pick_line(utf8, sjis)
}

/// The largest file that is read.
pub const MAX_FILE_BYTES: u64 = 1024 * 1024;

/// What is said of a file that is not a text file.
pub const NOT_A_TEXT_FILE: &'static str =
    "対応していないファイル形式です (.txt のみ読み上げできます)";

/// One letter in lower case, where it is an ASCII letter.
pub open spec fn ascii_lower(c: char) -> char {
    if 'A' <= c && c <= 'Z' {
        (c as int + 32) as char
    } else {
        c
    }
}

/// The text with its ASCII letters in lower case.
pub open spec fn in_ascii_lower(s: Seq<char>) -> Seq<char> {
    Seq::new(s.len(), |i: int| ascii_lower(s[i]))
}

/// Puts the ASCII letters of a text in lower case.
pub fn to_ascii_lowercase(s: &str) -> (r: String)
    ensures
        r@ == in_ascii_lower(s@),
{
    let cs = chars_of(s);
    let mut out = String::new();
    let mut i: usize = 0;
    while i < cs.len()
        invariant
            i <= cs@.len(),
            cs@ == s@,
            out@ == in_ascii_lower(s@).subrange(0, i as int),
        decreases cs@.len() - i,
    {
        out.push(lower_letter(cs[i]));
        i += 1;
        assert(out@ =~= in_ascii_lower(s@).subrange(0, i as int));
    }
    assert(out@ =~= in_ascii_lower(s@));
    out
}

/// One letter in lower case, where it is an ASCII letter.
pub fn lower_letter(c: char) -> (r: char)
    ensures
        r == ascii_lower(c),
{
    if 'A' <= c && c <= 'Z' {
        let n: u32 = c as u32;
        match char::from_u32(n + 32) {
            Some(l) => l,
            None => c,
        }
    } else {
        c
    }
}

/// A text file by its extension, in whatever case.
pub open spec fn is_text_extension(e: Option<Seq<char>>) -> bool {
    e matches Some(x) && in_ascii_lower(x) == "txt"@
}

/// Whether the file is a text file by its extension.
pub fn is_text_file(extension: Option<&str>) -> (r: bool)
    ensures
        r == is_text_extension(
            match extension {
                Some(e) => Some(e@),
                None => None,
            },
        ),
{
    match extension {
        Some(e) => {
            let l = to_ascii_lowercase(e);
            same(l.as_str(), "txt")
        },
        None => false,
    }
}

/// What is said of a file of `len` bytes that is too large.
pub open spec fn too_large_text(len: u64) -> Seq<char> {
    "ファイルが大きすぎます ("@ + text::decimal((len / 1024) as nat) + "KB / 上限 "@ + text::decimal(
        (MAX_FILE_BYTES / 1024) as nat,
    ) + "KB)"@
}

/// Refuses a file that is too large.
pub fn check_size(len: u64) -> (r: Result<(), String>)
    ensures
        r is Ok == (len <= MAX_FILE_BYTES),
        r matches Err(e) ==> e@ == too_large_text(len),
{
    if len > MAX_FILE_BYTES {
        let mut out = owned("ファイルが大きすぎます (");
        push_text(&mut out, decimal_text(len / 1024).as_str());
        push_text(&mut out, "KB / 上限 ");
        push_text(&mut out, decimal_text(MAX_FILE_BYTES / 1024).as_str());
        push_text(&mut out, "KB)");
        return Err(out);
    }
    Ok(())
}

/// What reading a script file of `len` bytes gives, once its bytes are there.
pub open spec fn file_text(len: u64, bytes: Seq<u8>) -> Result<Seq<char>, Seq<char>> {
    if len > MAX_FILE_BYTES {
        Err(too_large_text(len))
    } else {
        decoded(bytes)
    }
}

/// Reads a script file, given the size that the file system reports and the
/// bytes. The size decides first.
pub fn decode_script_file(len: u64, bytes: &Vec<u8>) -> (r: Result<String, String>)
    requires
        bytes@.len() <= usize::MAX / 8,
    ensures
        preprocess::result_text(r) == file_text(len, bytes@),
{
    match check_size(len) {
        Ok(_) => decode_bytes(bytes),
        Err(e) => Err(e),
    }
}

/// What reading a text file of that extension and `len` bytes gives, once its
/// bytes are there.
pub open spec fn text_file_text(
    extension: Option<Seq<char>>,
    len: u64,
    bytes: Seq<u8>,
) -> Result<Seq<char>, Seq<char>> {
    if is_text_extension(extension) {
        file_text(len, bytes)
    } else {
        Err(NOT_A_TEXT_FILE@)
    }
}

/// A script file is read whenever it is not too large and its bytes can be
/// decoded, whatever its extension, and gives what its bytes say. A text file is
/// read like it where its extension says that it is one, and else not at all.
pub proof fn script_and_text_files_are_read_alike(
    extension: Option<Seq<char>>,
    len: u64,
    bytes: Seq<u8>,
    s: Seq<char>,
)
    ensures
        file_text(len, bytes) == Ok::<Seq<char>, Seq<char>>(s) <==> len <= MAX_FILE_BYTES
            && decoded(bytes) == Ok::<Seq<char>, Seq<char>>(s),
        is_text_extension(extension) ==> text_file_text(extension, len, bytes) == file_text(
            len,
            bytes,
        ),
        text_file_text(extension, len, bytes) is Ok ==> is_text_extension(extension),
{
}

/// Reads a text file, given its extension, the size that the file system
/// reports and the bytes. The extension decides first, then the size.
pub fn decode_text_file(extension: Option<&str>, len: u64, bytes: &Vec<u8>) -> (r: Result<
    String,
    String,
>)
    requires
        bytes@.len() <= usize::MAX / 8,
    ensures
        preprocess::result_text(r) == text_file_text(
            match extension {
                Some(e) => Some(e@),
                None => None,
            },
            len,
            bytes@,
        ),
{
    if !is_text_file(extension) {
        return Err(owned(NOT_A_TEXT_FILE));
    }
    decode_script_file(len, bytes)
}

/// A sentence ends at a full stop, an exclamation mark or a question mark, wide or
/// narrow, or at an ellipsis; a comma does not end it, nor does a letter.
pub proof fn what_ends_a_sentence(c: char)
    ensures
        ends_sentence('。') && ends_sentence('！') && ends_sentence('？') && ends_sentence('!')
            && ends_sentence('?') && ends_sentence('…'),
        !ends_sentence('、') && !ends_sentence('.') && !ends_sentence(','),
        ends_sentence(c) ==> !text::is_white(c) && !('a' <= c <= 'z') && !('A' <= c <= 'Z') && !('0'
            <= c <= '9') && !('ぁ' <= c <= 'ヿ') && !('一' <= c <= '龯'),
{
}

/// Letters are put in lower case one by one: a text keeps its length, and only the
/// letters from A to Z change, each to the small letter.
pub proof fn only_capital_letters_change(s: Seq<char>, k: int)
    requires
        0 <= k < s.len(),
    ensures
        in_ascii_lower(s).len() == s.len(),
        'A' <= s[k] <= 'Z' ==> in_ascii_lower(s)[k] as int == s[k] as int + 32,
        !('A' <= s[k] <= 'Z') ==> in_ascii_lower(s)[k] == s[k],
        in_ascii_lower(in_ascii_lower(s)) == in_ascii_lower(s),
{
    assert(in_ascii_lower(in_ascii_lower(s)) =~= in_ascii_lower(s));
}

/// Bytes are read as UTF-8 wherever they are, and as Shift_JIS only where they are not;
/// where they are neither they are refused, and so is what begins with the mark of
/// UTF-16. A line of a program is never refused.
pub proof fn utf8_comes_first(bytes: Seq<u8>)
    ensures
        has_utf16_mark(bytes) ==> decoded(bytes) == Err::<Seq<char>, Seq<char>>(UNKNOWN_ENCODING@),
        !has_utf16_mark(bytes) && !utf8_decoding(bytes).1 ==> decoded(bytes) == Ok::<
            Seq<char>,
            Seq<char>,
        >(utf8_decoding(bytes).0),
        !has_utf16_mark(bytes) && utf8_decoding(bytes).1 && !shift_jis_decoding(bytes).1 ==> decoded(
            bytes,
        ) == Ok::<Seq<char>, Seq<char>>(shift_jis_decoding(bytes).0),
        utf8_decoding(bytes).1 && shift_jis_decoding(bytes).1 ==> decoded(bytes) is Err,
        !utf8_decoding(bytes).1 ==> line_decoding(utf8_decoding(bytes), shift_jis_decoding(bytes))
            == utf8_decoding(bytes).0,
        utf8_decoding(bytes).1 && !shift_jis_decoding(bytes).1 ==> line_decoding(
            utf8_decoding(bytes),
            shift_jis_decoding(bytes),
        ) == shift_jis_decoding(bytes).0,
{
}

} // verus!
