//! Keeping what was spoken out of the logs.
//!
//! The voice engine's error messages may quote the text that it was given.
//! Before such a message is logged or shown, every occurrence of a text that
//! was sent recently is masked, and the message is cut to a bounded length.
use vstd::prelude::*;

use crate::text::{
    char_count, chars_of, is_control, is_whitespace, lines, owned, push_text, replace_all, same,
    slice_text, starts_with, trim,
};
use crate::text;

verus! {

/// What stands in place of a text that must not be logged.
pub const MASK: &'static str = "«伏字»";

/// What ends a message that was cut.
pub const CUT_SUFFIX: &'static str = "…(以下省略)";

/// The longest message that is kept whole.
pub const MAX_LOG_CHARS: usize = 300;

/// The shortest text that is masked; masking shorter ones would blot out
/// words that have nothing to do with what was spoken.
pub const MIN_SECRET_CHARS: usize = 4;

/// A message as it is logged: whole, or its beginning with a note that the
/// rest is left out.
pub open spec fn cut(s: Seq<char>) -> Seq<char> {
    if s.len() <= MAX_LOG_CHARS {
        s
    } else {
        s.take(MAX_LOG_CHARS as int) + CUT_SUFFIX@
    }
}

/// Cuts a message to the length that is logged.
pub fn truncate_for_log(s: &str) -> (r: String)
    ensures
        r@ == cut(s@),
{
    let cs = chars_of(s);
    if cs.len() <= MAX_LOG_CHARS {
        return owned(s);
    }
    let mut out = slice_text(&cs, 0, MAX_LOG_CHARS);
    assert(out@ =~= s@.take(MAX_LOG_CHARS as int));
    push_text(&mut out, CUT_SUFFIX);
    out
}

/// One hexadecimal digit, in lower case.
pub open spec fn hex_digit(d: int) -> char {
    if d < 10 {
        (48 + d) as char
    } else {
        (87 + d) as char
    }
}

/// A character as it stands inside a JSON string.
pub open spec fn json_escaped_char(c: char) -> Seq<char> {
    if c == '"' {
        seq!['\\', '"']
    } else if c == '\\' {
        seq!['\\', '\\']
    } else if c == '\u{8}' {
        seq!['\\', 'b']
    } else if c == '\t' {
        seq!['\\', 't']
    } else if c == '\n' {
        seq!['\\', 'n']
    } else if c == '\u{c}' {
        seq!['\\', 'f']
    } else if c == '\r' {
        seq!['\\', 'r']
    } else if (c as int) < 0x20 {
        seq!['\\', 'u', '0', '0', hex_digit(c as int / 16), hex_digit(c as int % 16)]
    } else {
        seq![c]
    }
}

/// A text as it stands inside a JSON string.
pub open spec fn json_escaped(s: Seq<char>) -> Seq<char>
    decreases s.len(),
{
    if s.len() == 0 {
        Seq::empty()
    } else {
        json_escaped(s.drop_last()) + json_escaped_char(s.last())
    }
}

/// A text as a JSON string.
pub open spec fn json_quoted(s: Seq<char>) -> Seq<char> {
    seq!['"'] + json_escaped(s) + seq!['"']
}

/// `serde_json::to_string` on a string: the text in quotation marks, with
/// quotation marks, backslashes and control characters below U+0020 escaped
/// and every other character as it is. It does not fail on a string.
#[verifier::external_body]
fn json_string(s: &str) -> (r: Option<String>)
    ensures
        r is Some && r->0@ == json_quoted(s@),
{
    serde_json::to_string(s).ok()
}

/// A text as it stands inside a JSON string, without the quotation marks.
pub fn json_inner(s: &str) -> (r: Option<String>)
    ensures
        r matches Some(t) && t@ == json_escaped(s@),
{
    match json_string(s) {
        Some(quoted) => {
            let cs = chars_of(quoted.as_str());
            let inner = slice_text(&cs, 1, cs.len() - 1);
            assert(inner@ =~= json_escaped(s@));
            Some(inner)
        },
        None => None,
    }
}

/// The message with one secret masked, as it is and as JSON writes it; a
/// secret that is too short is left.
pub open spec fn masked_by(s: Seq<char>, secret: Seq<char>) -> Seq<char> {
    if secret.len() < MIN_SECRET_CHARS {
        s
    } else {
        let a = text::replaced(s, secret, MASK@);
        let e = json_escaped(secret);
        if e == secret {
            a
        } else {
            text::replaced(a, e, MASK@)
        }
    }
}

/// The message with the first `k` secrets masked, one after the other.
pub open spec fn masked_upto(s: Seq<char>, secrets: Seq<Seq<char>>, k: int) -> Seq<char>
    decreases k,
{
    if k <= 0 {
        s
    } else {
        masked_by(masked_upto(s, secrets, k - 1), secrets[k - 1])
    }
}

/// The message with every secret masked.
pub open spec fn masked(s: Seq<char>, secrets: Seq<Seq<char>>) -> Seq<char> {
    masked_upto(s, secrets, secrets.len() as int)
}

proof fn lemma_escaped_char(c: char)
    ensures
        json_escaped_char(c).len() > 0,
{
}

proof fn lemma_escaped_nonempty(s: Seq<char>)
    ensures
        s.len() <= json_escaped(s).len(),
    decreases s.len(),
{
    if s.len() > 0 {
        lemma_escaped_nonempty(s.drop_last());
        lemma_escaped_char(s.last());
    }
}

/// Masks the given secrets in a message and cuts it to the length that is
/// logged.
pub fn sanitize_sidecar_error(body: &str, secrets: &Vec<String>) -> (r: String)
    ensures
        r@ == cut(masked(body@, text::texts(secrets@))),
{
    let ghost all = text::texts(secrets@);
    let mut out = owned(body);
    let mut k: usize = 0;
    while k < secrets.len()
        invariant
            k <= secrets@.len(),
            all == text::texts(secrets@),
            out@ == masked_upto(body@, all, k as int),
        decreases secrets@.len() - k,
    {
        let secret = secrets[k].as_str();
        assert(all[k as int] == secret@);
        if char_count(secret) >= MIN_SECRET_CHARS {
            out = replace_all(out.as_str(), secret, MASK);
            match json_inner(secret) {
                Some(escaped) => {
                    if !same(escaped.as_str(), secret) {
                        proof {
                            lemma_escaped_nonempty(secret@);
                        }
                        out = replace_all(out.as_str(), escaped.as_str(), MASK);
                    }
                },
                None => {},
            }
        }
        k += 1;
    }
    truncate_for_log(out.as_str())
}

/// The text holds no character of the mask.
pub open spec fn mask_free(s: Seq<char>) -> bool {
    forall|i: int| 0 <= i < s.len() ==> !MASK@.contains(#[trigger] s[i])
}

/// What stands at the front of a text with replacements, and holds no
/// character of the mask, stood at the same place before.
proof fn lemma_front_kept(s: Seq<char>, i: int, p: Seq<char>, q: Seq<char>)
    requires
        0 <= i <= s.len(),
        p.len() > 0,
        mask_free(q),
        text::matches_at(text::replaced_from(s, i, p, MASK@), 0, q),
    ensures
        text::matches_at(s, i, q),
    decreases s.len() - i,
{
    let out = text::replaced_from(s, i, p, MASK@);
    reveal_strlit("«伏字»");
    if q.len() == 0 {
        assert(s.subrange(i, i + q.len()) =~= q);
    } else if i == s.len() {
    } else if text::matches_at(s, i, p) {
        assert(out[0] == MASK@[0]);
        assert(out.subrange(0, q.len() as int)[0] == q[0]);
        assert(MASK@.contains(q[0]));
    } else {
        let rest = text::replaced_from(s, i + 1, p, MASK@);
        let tail = q.skip(1);
        assert(out.subrange(0, q.len() as int)[0] == q[0]);
        assert(rest.subrange(0, tail.len() as int) =~= out.subrange(0, q.len() as int).skip(1));
        assert forall|j: int| 0 <= j < tail.len() implies !MASK@.contains(#[trigger] tail[j]) by {
            assert(tail[j] == q[j + 1]);
        }
        lemma_front_kept(s, i + 1, p, tail);
        assert(s.subrange(i, i + q.len()) =~= seq![s[i]] + s.subrange(i + 1, i + q.len()));
        assert(q =~= seq![q[0]] + tail);
    }
}

/// An occurrence in a text with replacements, of something that holds no
/// character of the mask, was there before, at a place that was not replaced.
proof fn lemma_occurrence_kept(s: Seq<char>, i: int, p: Seq<char>, q: Seq<char>, k: int) -> (j: int)
    requires
        0 <= i <= s.len(),
        p.len() > 0,
        q.len() > 0,
        mask_free(q),
        text::matches_at(text::replaced_from(s, i, p, MASK@), k, q),
    ensures
        text::matches_at(s, j, q),
        !text::matches_at(s, j, p),
    decreases s.len() - i,
{
    let out = text::replaced_from(s, i, p, MASK@);
    reveal_strlit("«伏字»");
    assert(i < s.len());
    if text::matches_at(s, i, p) {
        let rest = text::replaced_from(s, i + p.len(), p, MASK@);
        let n = MASK@.len();
        if k < n {
            assert(out[k] == MASK@[k]);
            assert(out.subrange(k, k + q.len())[0] == q[0]);
            assert(MASK@.contains(q[0]));
            0
        } else {
            assert(rest.subrange(k - n, k - n + q.len()) =~= out.subrange(k, k + q.len()));
            lemma_occurrence_kept(s, i + p.len(), p, q, k - n)
        }
    } else if k == 0 {
        lemma_front_kept(s, i, p, q);
        i
    } else {
        let rest = text::replaced_from(s, i + 1, p, MASK@);
        assert(rest.subrange(k - 1, k - 1 + q.len()) =~= out.subrange(k, k + q.len()));
        lemma_occurrence_kept(s, i + 1, p, q, k - 1)
    }
}

/// What has been masked is gone.
proof fn lemma_masked_gone(s: Seq<char>, p: Seq<char>)
    requires
        p.len() > 0,
        mask_free(p),
    ensures
        !text::has_text(text::replaced(s, p, MASK@), p),
{
    if text::has_text(text::replaced(s, p, MASK@), p) {
        let k = choose|k: int| text::matches_at(text::replaced(s, p, MASK@), k, p);
        let j = lemma_occurrence_kept(s, 0, p, p, k);
    }
}

/// Masking something else brings nothing back.
proof fn lemma_gone_stays(s: Seq<char>, p: Seq<char>, q: Seq<char>)
    requires
        p.len() > 0,
        q.len() > 0,
        mask_free(q),
        !text::has_text(s, q),
    ensures
        !text::has_text(text::replaced(s, p, MASK@), q),
{
    if text::has_text(text::replaced(s, p, MASK@), q) {
        let k = choose|k: int| text::matches_at(text::replaced(s, p, MASK@), k, q);
        let j = lemma_occurrence_kept(s, 0, p, q, k);
        assert(text::matches_at(s, j, q));
    }
}

proof fn lemma_gone_through(s: Seq<char>, secret: Seq<char>, q: Seq<char>)
    requires
        q.len() > 0,
        mask_free(q),
        !text::has_text(s, q),
    ensures
        !text::has_text(masked_by(s, secret), q),
{
    if secret.len() >= MIN_SECRET_CHARS {
        lemma_gone_stays(s, secret, q);
        lemma_escaped_nonempty(secret);
        if json_escaped(secret) != secret {
            lemma_gone_stays(text::replaced(s, secret, MASK@), json_escaped(secret), q);
        }
    }
}

proof fn lemma_escaped_char_mask_free(c: char)
    requires
        !MASK@.contains(c),
    ensures
        mask_free(json_escaped_char(c)),
{
    reveal_strlit("«伏字»");
    let e = json_escaped_char(c);
    assert forall|i: int| 0 <= i < e.len() implies !MASK@.contains(#[trigger] e[i]) by {
        if MASK@.contains(e[i]) {
            let m = choose|m: int| 0 <= m < MASK@.len() && MASK@[m] == e[i];
            assert(MASK@[m] as int >= 0xA0);
        }
    }
}

proof fn lemma_escaped_mask_free(s: Seq<char>)
    requires
        mask_free(s),
    ensures
        mask_free(json_escaped(s)),
    decreases s.len(),
{
    if s.len() > 0 {
        let rest = s.drop_last();
        assert forall|i: int| 0 <= i < rest.len() implies !MASK@.contains(#[trigger] rest[i]) by {
            assert(rest[i] == s[i]);
        }
        lemma_escaped_mask_free(rest);
        assert(!MASK@.contains(s[s.len() - 1]));
        lemma_escaped_char_mask_free(s.last());
        let a = json_escaped(rest);
        let b = json_escaped_char(s.last());
        assert forall|i: int| 0 <= i < (a + b).len() implies !MASK@.contains(#[trigger] (a + b)[i]) by {
            if i < a.len() {
                assert((a + b)[i] == a[i]);
            } else {
                assert((a + b)[i] == b[i - a.len()]);
            }
        }
    }
}

proof fn lemma_secrets_gone(s: Seq<char>, secrets: Seq<Seq<char>>, k: int, i: int)
    requires
        0 <= i < k <= secrets.len(),
        secrets[i].len() >= MIN_SECRET_CHARS,
        mask_free(secrets[i]),
    ensures
        !text::has_text(masked_upto(s, secrets, k), secrets[i]),
        !text::has_text(masked_upto(s, secrets, k), json_escaped(secrets[i])),
    decreases k,
{
    let secret = secrets[i];
    let e = json_escaped(secret);
    let before = masked_upto(s, secrets, k - 1);
    lemma_escaped_nonempty(secret);
    lemma_escaped_mask_free(secret);
    if i == k - 1 {
        let a = text::replaced(before, secret, MASK@);
        lemma_masked_gone(before, secret);
        if e != secret {
            lemma_gone_stays(a, e, secret);
            lemma_masked_gone(a, e);
        }
    } else {
        lemma_secrets_gone(s, secrets, k - 1, i);
        lemma_gone_through(before, secrets[k - 1], secret);
        lemma_gone_through(before, secrets[k - 1], e);
    }
}

proof fn lemma_prefix_gone(s: Seq<char>, n: int, q: Seq<char>)
    requires
        0 <= n <= s.len(),
        !text::has_text(s, q),
    ensures
        !text::has_text(s.take(n), q),
{
    if text::has_text(s.take(n), q) {
        let k = choose|k: int| text::matches_at(s.take(n), k, q);
        assert(s.subrange(k, k + q.len()) =~= s.take(n).subrange(k, k + q.len()));
        assert(text::matches_at(s, k, q));
    }
}

/// The part of a message that is logged from the message itself: all of it,
/// or what stands before the note that the rest is left out.
pub open spec fn logged_part(s: Seq<char>) -> Seq<char> {
    if s.len() <= MAX_LOG_CHARS {
        s
    } else {
        s.take(MAX_LOG_CHARS as int)
    }
}

/// A text of four characters or more that is given as a secret does not reach
/// the log, neither as it is nor as JSON writes it: what is logged of the
/// message holds no occurrence of it. (A text that holds a character of the
/// mask itself is left out: two masks side by side could spell it.)
pub proof fn secrets_never_logged(body: Seq<char>, secrets: Seq<Seq<char>>, i: int)
    requires
        0 <= i < secrets.len(),
        secrets[i].len() >= MIN_SECRET_CHARS,
        mask_free(secrets[i]),
    ensures
        !text::has_text(logged_part(masked(body, secrets)), secrets[i]),
        !text::has_text(logged_part(masked(body, secrets)), json_escaped(secrets[i])),
        cut(masked(body, secrets)) == logged_part(masked(body, secrets)) || cut(
            masked(body, secrets),
        ) == logged_part(masked(body, secrets)) + CUT_SUFFIX@,
{
    lemma_secrets_gone(body, secrets, secrets.len() as int, i);
    let m = masked(body, secrets);
    if m.len() > MAX_LOG_CHARS {
        lemma_prefix_gone(m, MAX_LOG_CHARS as int, secrets[i]);
        lemma_prefix_gone(m, MAX_LOG_CHARS as int, json_escaped(secrets[i]));
    }
}

/// A character that Python's `repr` writes as an escape: a control character,
/// white space other than the plain space, or an invisible formatting character.
pub open spec fn is_rewritten(c: char) -> bool {
    ||| text::is_cc(c)
    ||| text::is_white(c) && c != ' '
    ||| 0x200B <= c as int <= 0x200F
    ||| 0x202A <= c as int <= 0x202E
    ||| 0x2060 <= c as int <= 0x2064
    ||| c as int == 0xFEFF
}

/// Whether Python's `repr` writes the character as an escape.
pub fn rewritten_by_python(c: char) -> (r: bool)
    ensures
        r == is_rewritten(c),
{
    let n: u32 = c as u32;
    is_control(c) || (is_whitespace(c) && c != ' ') || (0x200B <= n && n <= 0x200F) || (0x202A <= n
        && n <= 0x202E) || (0x2060 <= n && n <= 0x2064) || n == 0xFEFF
}

/// The first position at or after `i` of a character that is rewritten, or the end.
pub open spec fn plain_end(s: Seq<char>, i: int) -> int
    decreases s.len() - i,
    when 0 <= i <= s.len()
{
    if i == s.len() || is_rewritten(s[i]) {
        i
    } else {
        plain_end(s, i + 1)
    }
}

proof fn lemma_plain_end(s: Seq<char>, i: int)
    requires
        0 <= i <= s.len(),
    ensures
        i <= plain_end(s, i) <= s.len(),
    decreases s.len() - i,
{
    if i < s.len() && !is_rewritten(s[i]) {
        lemma_plain_end(s, i + 1);
    }
}

/// The text from position `i` on, cut at each character that is rewritten, the
/// pieces without white space at their ends.
pub open spec fn plain_pieces(s: Seq<char>, i: int) -> Seq<Seq<char>>
    decreases s.len() - i,
    when 0 <= i <= s.len()
    via plain_pieces_terminates
{
    let e = plain_end(s, i);
    let piece = text::trimmed(s.subrange(i, e));
    if e == s.len() {
        seq![piece]
    } else {
        seq![piece] + plain_pieces(s, e + 1)
    }
}

#[via_fn]
proof fn plain_pieces_terminates(s: Seq<char>, i: int) {
    lemma_plain_end(s, i);
}

/// Each text without white space at its ends.
pub open spec fn trimmed_all(l: Seq<Seq<char>>) -> Seq<Seq<char>> {
    Seq::new(l.len(), |i: int| text::trimmed(l[i]))
}

/// What may be logged of one secret: the whole, each of its lines, and each
/// stretch between characters that are rewritten.
pub open spec fn forms_of(secret: Seq<char>) -> Seq<Seq<char>> {
    seq![secret] + trimmed_all(text::lines_of(secret)) + plain_pieces(secret, 0)
}

/// The forms of the first `k` secrets.
pub open spec fn forms_upto(secrets: Seq<Seq<char>>, k: int) -> Seq<Seq<char>>
    decreases k,
{
    if k <= 0 {
        Seq::empty()
    } else {
        forms_upto(secrets, k - 1) + forms_of(secrets[k - 1])
    }
}

/// How many texts at the front of `s` are at least as long as `n`.
pub open spec fn front_at_least(s: Seq<Seq<char>>, n: nat, i: int) -> int
    decreases s.len() - i,
    when 0 <= i <= s.len()
{
    if i < s.len() && s[i].len() >= n {
        front_at_least(s, n, i + 1)
    } else {
        i
    }
}

proof fn lemma_front_at_least(s: Seq<Seq<char>>, n: nat, i: int)
    requires
        0 <= i <= s.len(),
    ensures
        i <= front_at_least(s, n, i) <= s.len(),
        forall|j: int| i <= j < front_at_least(s, n, i) ==> (#[trigger] s[j]).len() >= n,
        front_at_least(s, n, i) < s.len() ==> s[front_at_least(s, n, i)].len() < n,
    decreases s.len() - i,
{
    if i < s.len() && s[i].len() >= n {
        lemma_front_at_least(s, n, i + 1);
    }
}

/// The first `k` texts, longer ones first, and among those of one length in
/// their order.
pub open spec fn by_length_upto(s: Seq<Seq<char>>, k: int) -> Seq<Seq<char>>
    decreases k,
{
    if k <= 0 {
        Seq::empty()
    } else {
        let before = by_length_upto(s, k - 1);
        before.insert(front_at_least(before, s[k - 1].len(), 0), s[k - 1])
    }
}

/// The texts without those that equal the one right before them, of the first `k`.
pub open spec fn without_repeats(s: Seq<Seq<char>>, k: int) -> Seq<Seq<char>>
    decreases k,
{
    if k <= 0 {
        Seq::empty()
    } else if k >= 2 && s[k - 1] == s[k - 2] {
        without_repeats(s, k - 1)
    } else {
        without_repeats(s, k - 1).push(s[k - 1])
    }
}

/// Everything that is masked for the given secrets, longer texts first.
pub open spec fn variants_of(secrets: Seq<Seq<char>>) -> Seq<Seq<char>> {
    let forms = forms_upto(secrets, secrets.len() as int);
    let sorted = by_length_upto(forms, forms.len() as int);
    without_repeats(sorted, sorted.len() as int)
}

/// Cuts a secret at each character that is rewritten.
fn split_plain(secret: &str) -> (r: Vec<String>)
    ensures
        text::texts(r@) == plain_pieces(secret@, 0),
{
    let cs = chars_of(secret);
    let mut out: Vec<String> = Vec::new();
    let mut i: usize = 0;
    assert(text::texts(out@) + plain_pieces(secret@, 0) =~= plain_pieces(secret@, 0));
    loop
        invariant
            i <= cs@.len(),
            cs@ == secret@,
            text::texts(out@) + plain_pieces(secret@, i as int) == plain_pieces(secret@, 0),
        decreases cs@.len() - i,
    {
        let ghost before = text::texts(out@);
        let mut e: usize = i;
        while e < cs.len() && !rewritten_by_python(cs[e])
            invariant
                i <= e <= cs@.len(),
                cs@ == secret@,
                plain_end(secret@, i as int) == plain_end(secret@, e as int),
            decreases cs@.len() - e,
        {
            e += 1;
        }
        assert(e as int == plain_end(secret@, i as int));
        let piece = trim(slice_text(&cs, i, e).as_str());
        out.push(piece);
        assert(text::texts(out@) =~= before + seq![piece@]);
        if e >= cs.len() {
            return out;
        }
        assert(text::texts(out@) + plain_pieces(secret@, e + 1) =~= before + (seq![piece@]
            + plain_pieces(secret@, e + 1)));
        i = e + 1;
    }
}

/// Appends each form of a secret.
fn push_forms(out: &mut Vec<String>, secret: &str)
    ensures
        text::texts(final(out)@) == text::texts(old(out)@) + forms_of(secret@),
{
    let ghost before = text::texts(out@);
    out.push(owned(secret));
    assert(text::texts(out@) =~= before + seq![secret@]);
    let ls = lines(secret);
    let ghost t = trimmed_all(text::lines_of(secret@));
    let mut i: usize = 0;
    assert(before + seq![secret@] + t.subrange(0, 0) =~= before + seq![secret@]);
    while i < ls.len()
        invariant
            i <= ls@.len(),
            text::texts(ls@) == text::lines_of(secret@),
            t == trimmed_all(text::lines_of(secret@)),
            text::texts(out@) == before + seq![secret@] + t.subrange(0, i as int),
        decreases ls@.len() - i,
    {
        let ghost prior = text::texts(out@);
        let line = trim(ls[i].as_str());
        assert(text::texts(ls@)[i as int] == ls@[i as int]@);
        out.push(line);
        assert(text::texts(out@) =~= prior.push(line@));
        i += 1;
        assert(text::texts(out@) =~= before + seq![secret@] + t.subrange(0, i as int));
    }
    assert(t.subrange(0, i as int) =~= t);
    let ghost prior = out@;
    let mut plain = split_plain(secret);
    let ghost more = plain@;
    out.append(&mut plain);
    assert(out@ == prior + more);
    assert(text::texts(out@) =~= text::texts(prior) + text::texts(more));
    assert(text::texts(out@) =~= before + forms_of(secret@));
}

/// Puts a text in its place among texts that stand longer ones first.
fn insert_by_length(sorted: &mut Vec<String>, s: String)
    ensures
        text::texts(final(sorted)@) == text::texts(old(sorted)@).insert(
            front_at_least(text::texts(old(sorted)@), s@.len(), 0),
            s@,
        ),
{
    let ghost before = text::texts(sorted@);
    let n = char_count(s.as_str());
    let mut i: usize = 0;
    while i < sorted.len() && char_count(sorted[i].as_str()) >= n
        invariant
            i <= sorted@.len(),
            n == s@.len(),
            before == text::texts(sorted@),
            front_at_least(before, n as nat, 0) == front_at_least(before, n as nat, i as int),
        decreases sorted@.len() - i,
    {
        assert(before[i as int] == sorted@[i as int]@);
        i += 1;
    }
    proof {
        if i < sorted@.len() {
            assert(before[i as int] == sorted@[i as int]@);
        }
    }
    sorted.insert(i, s);
    assert(text::texts(sorted@) =~= before.insert(i as int, s@));
}

/// Everything that is masked for the given secrets, longer texts first.
pub fn secret_variants(secrets: &Vec<String>) -> (r: Vec<String>)
    ensures
        text::texts(r@) == variants_of(text::texts(secrets@)),
{
    let ghost all = text::texts(secrets@);
    let mut forms: Vec<String> = Vec::new();
    let mut k: usize = 0;
    assert(text::texts(forms@) =~= Seq::<Seq<char>>::empty());
    while k < secrets.len()
        invariant
            k <= secrets@.len(),
            all == text::texts(secrets@),
            text::texts(forms@) == forms_upto(all, k as int),
        decreases secrets@.len() - k,
    {
        assert(all[k as int] == secrets@[k as int]@);
        push_forms(&mut forms, secrets[k].as_str());
        k += 1;
    }
    let ghost f = text::texts(forms@);
    let mut sorted: Vec<String> = Vec::new();
    let mut i: usize = 0;
    assert(text::texts(sorted@) =~= Seq::<Seq<char>>::empty());
    while i < forms.len()
        invariant
            i <= forms@.len(),
            f == text::texts(forms@),
            text::texts(sorted@) == by_length_upto(f, i as int),
        decreases forms@.len() - i,
    {
        assert(f[i as int] == forms@[i as int]@);
        insert_by_length(&mut sorted, owned(forms[i].as_str()));
        i += 1;
    }
    let ghost s = text::texts(sorted@);
    let mut out: Vec<String> = Vec::new();
    let mut j: usize = 0;
    proof {
        lemma_by_length_len(f, f.len() as int);
    }
    assert(text::texts(out@) =~= Seq::<Seq<char>>::empty());
    while j < sorted.len()
        invariant
            j <= sorted@.len(),
            s == text::texts(sorted@),
            text::texts(out@) == without_repeats(s, j as int),
        decreases sorted@.len() - j,
    {
        let ghost prior = text::texts(out@);
        assert(s[j as int] == sorted@[j as int]@);
        let repeat = if j > 0 {
            assert(s[j - 1] == sorted@[j - 1]@);
            same(sorted[j].as_str(), sorted[j - 1].as_str())
        } else {
            false
        };
        if !repeat {
            out.push(owned(sorted[j].as_str()));
            assert(text::texts(out@) =~= prior.push(s[j as int]));
        }
        j += 1;
    }
    out
}

proof fn lemma_by_length_len(s: Seq<Seq<char>>, k: int)
    requires
        0 <= k <= s.len(),
    ensures
        by_length_upto(s, k).len() == k,
    decreases k,
{
    if k > 0 {
        lemma_by_length_len(s, k - 1);
        lemma_front_at_least(by_length_upto(s, k - 1), s[k - 1].len(), 0);
    }
}

/// Longer texts are masked before shorter ones.
pub open spec fn longest_first(s: Seq<Seq<char>>) -> bool {
    forall|i: int, j: int| 0 <= i < j < s.len() ==> (#[trigger] s[i]).len() >= (#[trigger] s[j]).len()
}

proof fn lemma_by_length_sorted(s: Seq<Seq<char>>, k: int)
    requires
        0 <= k <= s.len(),
    ensures
        longest_first(by_length_upto(s, k)),
    decreases k,
{
    if k > 0 {
        lemma_by_length_sorted(s, k - 1);
        let before = by_length_upto(s, k - 1);
        let x = s[k - 1];
        let at = front_at_least(before, x.len(), 0);
        lemma_front_at_least(before, x.len(), 0);
        let after = before.insert(at, x);
        assert forall|i: int, j: int| 0 <= i < j < after.len() implies (#[trigger] after[i]).len()
            >= (#[trigger] after[j]).len() by {
            let bi = if i < at {
                i
            } else {
                i - 1
            };
            let bj = if j < at {
                j
            } else {
                j - 1
            };
            if i != at {
                assert(after[i] == before[bi]);
            }
            if j != at {
                assert(after[j] == before[bj]);
            }
            if j > at && i == at {
                assert(before[at].len() < x.len());
                assert(before[bj].len() <= before[at].len());
            }
        }
    }
}

proof fn lemma_without_repeats_sub(s: Seq<Seq<char>>, k: int)
    requires
        0 <= k <= s.len(),
    ensures
        forall|i: int|
            0 <= i < without_repeats(s, k).len() ==> exists|j: int|
                0 <= j < k && s[j] == #[trigger] without_repeats(s, k)[i],
        forall|j: int| 0 <= j < k ==> without_repeats(s, k).contains(#[trigger] s[j]),
        longest_first(s) ==> longest_first(without_repeats(s, k)),
        k > 0 ==> without_repeats(s, k).len() > 0 && without_repeats(s, k).last() == s[k - 1],
    decreases k,
{
    if k > 0 {
        lemma_without_repeats_sub(s, k - 1);
        let before = without_repeats(s, k - 1);
        let after = without_repeats(s, k);
        assert forall|i: int| 0 <= i < after.len() implies exists|j: int|
            0 <= j < k && s[j] == #[trigger] after[i] by {
            if i < before.len() {
                assert(after[i] == before[i]);
                let j = choose|j: int| 0 <= j < k - 1 && s[j] == before[i];
                assert(s[j] == after[i]);
            } else {
                assert(s[k - 1] == after[i]);
            }
        }
        assert forall|j: int| 0 <= j < k implies after.contains(#[trigger] s[j]) by {
            if j < k - 1 {
                assert(before.contains(s[j]));
                let m = choose|m: int| 0 <= m < before.len() && before[m] == s[j];
                assert(after[m] == s[j]);
            } else {
                assert(after[after.len() - 1] == s[j]);
            }
        }
        if longest_first(s) {
            assert forall|i: int, j: int| 0 <= i < j < after.len() implies (
            #[trigger] after[i]).len() >= (#[trigger] after[j]).len() by {
                assert(after[i] == before[i]);
                if j < before.len() {
                    assert(after[j] == before[j]);
                } else {
                    let m = choose|m: int| 0 <= m < k - 1 && s[m] == before[i];
                    assert(s[m].len() >= s[k - 1].len());
                }
            }
        }
    }
}

proof fn lemma_by_length_contains(s: Seq<Seq<char>>, k: int, x: Seq<char>)
    requires
        0 <= k <= s.len(),
        s.take(k).contains(x),
    ensures
        by_length_upto(s, k).contains(x),
    decreases k,
{
    let m = choose|m: int| 0 <= m < k && s.take(k)[m] == x;
    let before = by_length_upto(s, k - 1);
    let at = front_at_least(before, s[k - 1].len(), 0);
    lemma_front_at_least(before, s[k - 1].len(), 0);
    let after = by_length_upto(s, k);
    if m == k - 1 {
        assert(after[at] == x);
    } else {
        assert(s.take(k - 1)[m] == x);
        lemma_by_length_contains(s, k - 1, x);
        let b = choose|b: int| 0 <= b < before.len() && before[b] == x;
        if b < at {
            assert(after[b] == x);
        } else {
            assert(after[b + 1] == x);
        }
    }
}

proof fn lemma_forms_contain(secrets: Seq<Seq<char>>, k: int, i: int, x: Seq<char>)
    requires
        0 <= i < k <= secrets.len(),
        forms_of(secrets[i]).contains(x),
    ensures
        forms_upto(secrets, k).contains(x),
    decreases k,
{
    let a = forms_upto(secrets, k - 1);
    let b = forms_of(secrets[k - 1]);
    if i == k - 1 {
        let m = choose|m: int| 0 <= m < b.len() && b[m] == x;
        assert((a + b)[a.len() + m] == x);
    } else {
        lemma_forms_contain(secrets, k - 1, i, x);
        let m = choose|m: int| 0 <= m < a.len() && a[m] == x;
        assert((a + b)[m] == x);
    }
}

/// Everything that may be logged of a secret is among what is masked for it,
/// and longer texts come before shorter ones.
pub proof fn variants_cover(secrets: Seq<Seq<char>>, i: int, x: Seq<char>)
    requires
        0 <= i < secrets.len(),
        forms_of(secrets[i]).contains(x),
    ensures
        variants_of(secrets).contains(x),
        longest_first(variants_of(secrets)),
{
    let f = forms_upto(secrets, secrets.len() as int);
    let s = by_length_upto(f, f.len() as int);
    lemma_forms_contain(secrets, secrets.len() as int, i, x);
    assert(f.take(f.len() as int) =~= f);
    lemma_by_length_contains(f, f.len() as int, x);
    lemma_by_length_sorted(f, f.len() as int);
    lemma_without_repeats_sub(s, s.len() as int);
    let m = choose|m: int| 0 <= m < s.len() && s[m] == x;
    assert(without_repeats(s, s.len() as int).contains(s[m]));
}

/// A line of the engine's error output as it may be logged or shown.
pub open spec fn clean_line(line: Seq<char>, recent: Seq<Seq<char>>) -> Seq<char> {
    cut(masked(line, variants_of(recent)))
}

/// A text that was sent recently does not reach the log through the engine's
/// error output, nor does any line of it, nor any stretch of it that Python
/// writes unchanged.
pub proof fn recent_texts_never_logged(
    line: Seq<char>,
    recent: Seq<Seq<char>>,
    i: int,
    x: Seq<char>,
)
    requires
        0 <= i < recent.len(),
        forms_of(recent[i]).contains(x),
        x.len() >= MIN_SECRET_CHARS,
        mask_free(x),
    ensures
        !text::has_text(logged_part(masked(line, variants_of(recent))), x),
{
    variants_cover(recent, i, x);
    let v = variants_of(recent);
    let m = choose|m: int| 0 <= m < v.len() && v[m] == x;
    secrets_never_logged(line, v, m);
}

/// Masks what was sent recently in a line of the engine's error output.
pub fn sanitize_stderr_line(line: &str, recent: &Vec<String>) -> (r: String)
    ensures
        r@ == clean_line(line@, text::texts(recent@)),
{
    let variants = secret_variants(recent);
    sanitize_sidecar_error(line, &variants)
}

/// The line reports the progress of a download.
pub open spec fn is_progress(line: Seq<char>) -> bool {
    "[hf-download]"@.is_prefix_of(line)
}

/// Whether the line reports the progress of a download.
pub fn is_hf_progress_line(line: &str) -> (r: bool)
    ensures
        r == is_progress(line@),
{
    starts_with(line, "[hf-download]")
}

/// Where a line of the engine's error output goes: to the screen, or to the log.
#[derive(Debug, PartialEq, Eq)]
pub enum StderrRoute {
    Progress(String),
    Log(String),
}

/// Masks a line of the engine's error output, and only then decides where it
/// goes: progress to the screen, everything else to the log.
pub fn route_stderr_line(line: &str, recent: &Vec<String>) -> (r: StderrRoute)
    ensures
        ({
            let clean = clean_line(line@, text::texts(recent@));
            match r {
                StderrRoute::Progress(l) => is_progress(clean) && l@ == clean,
                StderrRoute::Log(l) => !is_progress(clean) && l@ == clean,
            }
        }),
{
    let clean = sanitize_stderr_line(line, recent);
    if is_hf_progress_line(clean.as_str()) {
        StderrRoute::Progress(clean)
    } else {
        StderrRoute::Log(clean)
    }
}

proof fn lemma_harmless(s: Seq<char>, secrets: Seq<Seq<char>>, k: int)
    requires
        0 <= k <= secrets.len(),
        forall|i: int|
            0 <= i < k && (#[trigger] secrets[i]).len() >= 4 ==> !text::has_text(s, secrets[i])
                && !text::has_text(s, json_escaped(secrets[i])),
    ensures
        masked_upto(s, secrets, k) == s,
    decreases k,
{
    if k > 0 {
        lemma_harmless(s, secrets, k - 1);
        let x = secrets[k - 1];
        if x.len() >= 4 {
            lemma_escaped_nonempty(x);
            text::replacing_goes_from_one_occurrence_to_the_next(s, Seq::empty(), x, MASK@);
            text::replacing_goes_from_one_occurrence_to_the_next(
                s,
                Seq::empty(),
                json_escaped(x),
                MASK@,
            );
        }
    }
}

/// A message in which no secret stands is not touched, whatever else it holds; of a
/// message of more than 300 characters the first 300 are kept, and it is noted that
/// there were more.
pub proof fn harmless_messages_are_kept(s: Seq<char>, secrets: Seq<Seq<char>>)
    requires
        forall|i: int|
            0 <= i < secrets.len() && (#[trigger] secrets[i]).len() >= 4 ==> !text::has_text(
                s,
                secrets[i],
            ) && !text::has_text(s, json_escaped(secrets[i])),
    ensures
        masked(s, secrets) == s,
        s.len() <= 300 ==> cut(masked(s, secrets)) == s,
        s.len() > 300 ==> s.take(300).is_prefix_of(cut(masked(s, secrets))) && cut(
            masked(s, secrets),
        ).len() == 300 + CUT_SUFFIX@.len(),
{
    lemma_harmless(s, secrets, secrets.len() as int);
    if s.len() > 300 {
        assert(cut(s).take(300) =~= s.take(300));
    }
}

/// A secret gives way to the mask, and what stands around it is kept.
pub proof fn only_the_secret_gives_way(a: Seq<char>, secret: Seq<char>, b: Seq<char>)
    requires
        secret.len() >= 4,
        json_escaped(secret) == secret,
        !text::has_text(b, secret),
        forall|j: int| 0 <= j < a.len() ==> !#[trigger] text::matches_at(a + secret + b, j, secret),
    ensures
        masked(a + secret + b, seq![secret]) == a + MASK@ + b,
{
    reveal_with_fuel(masked_upto, 2);
    text::replacing_goes_from_one_occurrence_to_the_next(a, b, secret, MASK@);
    text::replacing_goes_from_one_occurrence_to_the_next(b, Seq::empty(), secret, MASK@);
}

proof fn lemma_plain_end_at(s: Seq<char>, i: int, e: int)
    requires
        0 <= i <= e <= s.len(),
        forall|j: int| i <= j < e ==> !is_rewritten(#[trigger] s[j]),
        e < s.len() ==> is_rewritten(s[e]),
    ensures
        plain_end(s, i) == e,
    decreases e - i,
{
    if i < e {
        lemma_plain_end_at(s, i + 1, e);
    }
}

proof fn lemma_plain_end_bounds(s: Seq<char>, i: int)
    requires
        0 <= i <= s.len(),
    ensures
        i <= plain_end(s, i) <= s.len(),
        plain_end(s, i) < s.len() ==> is_rewritten(s[plain_end(s, i)]),
        forall|j: int| i <= j < plain_end(s, i) ==> !is_rewritten(#[trigger] s[j]),
    decreases s.len() - i,
{
    if i < s.len() && !is_rewritten(s[i]) {
        lemma_plain_end_bounds(s, i + 1);
    }
}

proof fn lemma_piece_is_there(s: Seq<char>, i: int, a: int, e: int)
    requires
        0 <= i <= a <= e <= s.len(),
        a == i || is_rewritten(s[a - 1]),
        forall|j: int| a <= j < e ==> !is_rewritten(#[trigger] s[j]),
        e < s.len() ==> is_rewritten(s[e]),
    ensures
        plain_pieces(s, i).contains(text::trimmed(s.subrange(a, e))),
    decreases s.len() - i,
{
    lemma_plain_end_bounds(s, i);
    let x = text::trimmed(s.subrange(a, e));
    let all = plain_pieces(s, i);
    if a == i {
        lemma_plain_end_at(s, i, e);
        assert(all[0] == x);
    } else {
        let p = plain_end(s, i);
        assert(p <= a - 1) by {
            if p > a - 1 {
                assert(!is_rewritten(s[a - 1]));
            }
        }
        lemma_piece_is_there(s, p + 1, a, e);
        let rest = plain_pieces(s, p + 1);
        let j = choose|j: int| 0 <= j < rest.len() && rest[j] == x;
        assert(all[j + 1] == x);
    }
}

/// A secret is masked in each of the forms in which it may come back: as it is, each
/// of its lines, and each stretch of it between characters that are written otherwise,
/// lines and stretches without white space at their ends.
pub proof fn every_form_of_a_secret_is_known(s: Seq<char>, k: int, a: int, e: int)
    requires
        0 <= a <= e <= s.len(),
        a == 0 || is_rewritten(s[a - 1]),
        forall|j: int| a <= j < e ==> !is_rewritten(#[trigger] s[j]),
        e < s.len() ==> is_rewritten(s[e]),
    ensures
        forms_of(s).contains(s),
        0 <= k < text::lines_of(s).len() ==> forms_of(s).contains(
            text::trimmed(text::lines_of(s)[k]),
        ),
        forms_of(s).contains(text::trimmed(s.subrange(a, e))),
{
    let l = trimmed_all(text::lines_of(s));
    let p = plain_pieces(s, 0);
    let all = forms_of(s);
    assert(all[0] == s);
    if 0 <= k < l.len() {
        assert(all[1 + k] == l[k]);
    }
    lemma_piece_is_there(s, 0, a, e);
    let x = text::trimmed(s.subrange(a, e));
    let j = choose|j: int| 0 <= j < p.len() && p[j] == x;
    assert(all[1 + l.len() + j] == x);
}

/// A text that was sent, of four characters or more, is not logged.
pub proof fn sent_texts_never_logged(line: Seq<char>, recent: Seq<Seq<char>>, i: int)
    requires
        0 <= i < recent.len(),
        recent[i].len() >= 4,
        mask_free(recent[i]),
    ensures
        !text::has_text(logged_part(masked(line, variants_of(recent))), recent[i]),
        clean_line(line, recent) == cut(masked(line, variants_of(recent))),
{
    assert(forms_of(recent[i])[0] == recent[i]);
    assert(forms_of(recent[i]).contains(recent[i]));
    recent_texts_never_logged(line, recent, i, recent[i]);
}

} // verus!
