//! Text as sequences of characters: the small vocabulary that the other
//! modules phrase their contracts in, with the functions that compute it.
use vstd::prelude::*;

verus! {

broadcast use vstd::string::group_string_axioms;

/// `String::push` appends one character to the end of the string.
pub assume_specification[ String::push ](s: &mut String, c: char)
    ensures
        final(s)@ == old(s)@.push(c),
;

/// `char::from_u32` gives the character of a code point; a number that is no
/// Unicode scalar value has none.
pub assume_specification[ char::from_u32 ](i: u32) -> (r: Option<char>)
    ensures
        r == (if i < 0xD800 || 0xE000 <= i <= 0x10FFFF {
            Some(i as char)
        } else {
            None
        }),
;

/// The characters of `s`, in order.
pub fn chars_of(s: &str) -> (r: Vec<char>)
    ensures
        r@ == s@,
{
    let mut out: Vec<char> = Vec::new();
    let mut it = s.chars();
    loop
        invariant_except_break
            vstd::std_specs::iter::IteratorSpec::decrease(&it) is Some,
            vstd::std_specs::iter::IteratorSpec::obeys_prophetic_iter_laws(&it),
            out@ + vstd::std_specs::iter::IteratorSpec::remaining(&it) == s@,
        ensures
            out@ == s@,
        decreases vstd::std_specs::iter::IteratorSpec::decrease(&it)->0,
    {
        let ghost before = vstd::std_specs::iter::IteratorSpec::remaining(&it);
        let next = it.next();
        match next {
            Some(c) => {
                out.push(c);
                assert(out@ + vstd::std_specs::iter::IteratorSpec::remaining(&it) =~= s@);
            },
            None => {
                assert(before.len() == 0);
                assert(out@ =~= s@);
                break;
            },
        }
    }
    out
}

/// The text between two character positions.
pub fn slice_text(cs: &Vec<char>, from: usize, to: usize) -> (r: String)
    requires
        from <= to <= cs@.len(),
    ensures
        r@ == cs@.subrange(from as int, to as int),
{
    let mut out = String::new();
    let mut i: usize = from;
    while i < to
        invariant
            from <= i <= to <= cs@.len(),
            out@ == cs@.subrange(from as int, i as int),
        decreases to - i,
    {
        out.push(cs[i]);
        i += 1;
        assert(out@ =~= cs@.subrange(from as int, i as int));
    }
    out
}

/// Appends the characters of `s` to `out`.
pub fn push_text(out: &mut String, s: &str)
    ensures
        final(out)@ == old(out)@ + s@,
{
    out.append(s);
}

/// An owned copy.
pub fn owned(s: &str) -> (r: String)
    ensures
        r@ == s@,
{
    s.to_owned()
}

/// Whether two character vectors hold the same text.
pub fn same_chars(a: &Vec<char>, b: &Vec<char>) -> (r: bool)
    ensures
        r == (a@ == b@),
{
    if a.len() != b.len() {
        return false;
    }
    let mut i: usize = 0;
    while i < a.len()
        invariant
            a@.len() == b@.len(),
            i <= a@.len(),
            a@.subrange(0, i as int) == b@.subrange(0, i as int),
        decreases a@.len() - i,
    {
        if a[i] != b[i] {
            return false;
        }
        i += 1;
        assert(a@.subrange(0, i as int) =~= a@.subrange(0, i as int - 1).push(a@[i as int - 1]));
        assert(b@.subrange(0, i as int) =~= b@.subrange(0, i as int - 1).push(b@[i as int - 1]));
    }
    assert(a@.subrange(0, i as int) =~= a@);
    assert(b@.subrange(0, i as int) =~= b@);
    true
}

/// Whether two strings are the same text.
pub fn same(a: &str, b: &str) -> (r: bool)
    ensures
        r == (a@ == b@),
{
    same_chars(&chars_of(a), &chars_of(b))
}

/// The number of characters (not bytes).
pub fn char_count(s: &str) -> (r: usize)
    ensures
        r == s@.len(),
{
    s.unicode_len()
}

/// A character is a Unicode scalar value.
pub proof fn lemma_char(c: char)
    ensures
        (c as int) < 0xD800 || 0xE000 <= (c as int) <= 0x10FFFF,
        c as int >= 0,
{
}

/// The character at a position.
pub fn char_at(cs: &Vec<char>, i: usize) -> (c: char)
    requires
        i < cs@.len(),
    ensures
        c == cs@[i as int],
{
    cs[i]
}

/// The character's code point.
pub fn code_of(c: char) -> (r: u32)
    ensures
        r as int == c as int,
{
    c as u32
}

/// The characters with the Unicode property White_Space.
pub open spec fn is_white(c: char) -> bool {
    let n = c as int;
    ||| 0x9 <= n <= 0xD
    ||| n == 0x20
    ||| n == 0x85
    ||| n == 0xA0
    ||| n == 0x1680
    ||| 0x2000 <= n <= 0x200A
    ||| n == 0x2028
    ||| n == 0x2029
    ||| n == 0x202F
    ||| n == 0x205F
    ||| n == 0x3000
}

/// Whether the character is white space.
pub fn is_whitespace(c: char) -> (r: bool)
    ensures
        r == is_white(c),
{
    let n: u32 = c as u32;
    (0x9 <= n && n <= 0xD) || n == 0x20 || n == 0x85 || n == 0xA0 || n == 0x1680 || (0x2000 <= n
        && n <= 0x200A) || n == 0x2028 || n == 0x2029 || n == 0x202F || n == 0x205F || n == 0x3000
}

/// The characters of the Unicode category Cc: the C0 and C1 controls and DEL.
pub open spec fn is_cc(c: char) -> bool {
    (c as int) < 0x20 || 0x7F <= (c as int) <= 0x9F
}

/// Whether the character is a control character.
pub fn is_control(c: char) -> (r: bool)
    ensures
        r == is_cc(c),
{
    let n: u32 = c as u32;
    n < 0x20 || (0x7F <= n && n <= 0x9F)
}

/// The text without its leading white space.
pub open spec fn trim_start(s: Seq<char>) -> Seq<char>
    decreases s.len(),
{
    if s.len() > 0 && is_white(s[0]) {
        trim_start(s.skip(1))
    } else {
        s
    }
}

/// The text without its trailing white space.
pub open spec fn trim_end(s: Seq<char>) -> Seq<char>
    decreases s.len(),
{
    if s.len() > 0 && is_white(s.last()) {
        trim_end(s.drop_last())
    } else {
        s
    }
}

/// The text without white space at either end.
pub open spec fn trimmed(s: Seq<char>) -> Seq<char> {
    trim_end(trim_start(s))
}

/// Nothing but white space.
pub open spec fn is_blank(s: Seq<char>) -> bool {
    forall|i: int| 0 <= i < s.len() ==> is_white(#[trigger] s[i])
}

pub proof fn lemma_trim_start_blank(s: Seq<char>)
    ensures
        (trim_start(s).len() == 0) == is_blank(s),
        trim_start(s).len() > 0 ==> !is_white(trim_start(s)[0]),
    decreases s.len(),
{
    if s.len() > 0 && is_white(s[0]) {
        lemma_trim_start_blank(s.skip(1));
        if is_blank(s.skip(1)) {
            assert forall|i: int| 0 <= i < s.len() implies is_white(#[trigger] s[i]) by {
                if i > 0 {
                    assert(s[i] == s.skip(1)[i - 1]);
                }
            }
        } else {
            let i = choose|i: int| 0 <= i < s.skip(1).len() && !is_white(#[trigger] s.skip(1)[i]);
            assert(s[i + 1] == s.skip(1)[i]);
        }
    } else if s.len() > 0 {
        assert(!is_white(s[0]));
    }
}

pub proof fn lemma_trim_end_blank(s: Seq<char>)
    ensures
        (trim_end(s).len() == 0) == is_blank(s),
        trim_end(s).len() > 0 ==> !is_white(trim_end(s).last()),
        trim_end(s).is_prefix_of(s),
    decreases s.len(),
{
    if s.len() > 0 && is_white(s.last()) {
        lemma_trim_end_blank(s.drop_last());
        if is_blank(s.drop_last()) {
            assert forall|i: int| 0 <= i < s.len() implies is_white(#[trigger] s[i]) by {
                if i < s.len() - 1 {
                    assert(s[i] == s.drop_last()[i]);
                }
            }
        } else {
            let i = choose|i: int|
                0 <= i < s.drop_last().len() && !is_white(#[trigger] s.drop_last()[i]);
            assert(s[i] == s.drop_last()[i]);
        }
    } else if s.len() > 0 {
        assert(!is_white(s[s.len() - 1]));
    }
}

proof fn lemma_trim_start_cut(s: Seq<char>) -> (a: int)
    ensures
        0 <= a <= s.len(),
        trim_start(s) == s.skip(a),
        is_blank(s.take(a)),
    decreases s.len(),
{
    if s.len() > 0 && is_white(s[0]) {
        let a = lemma_trim_start_cut(s.skip(1));
        assert(s.skip(1).skip(a) =~= s.skip(a + 1));
        let t = s.take(a + 1);
        assert forall|i: int| 0 <= i < t.len() implies is_white(#[trigger] t[i]) by {
            if i > 0 {
                assert(t[i] == s.skip(1).take(a)[i - 1]);
            }
        }
        a + 1
    } else {
        assert(s.skip(0) =~= s);
        0
    }
}

proof fn lemma_trim_end_cut(s: Seq<char>) -> (b: int)
    ensures
        0 <= b <= s.len(),
        trim_end(s) == s.take(b),
        is_blank(s.skip(b)),
    decreases s.len(),
{
    if s.len() > 0 && is_white(s.last()) {
        let b = lemma_trim_end_cut(s.drop_last());
        assert(s.drop_last().take(b) =~= s.take(b));
        let t = s.skip(b);
        assert forall|i: int| 0 <= i < t.len() implies is_white(#[trigger] t[i]) by {
            if i < t.len() - 1 {
                assert(t[i] == s.drop_last().skip(b)[i]);
            }
        }
        b
    } else {
        assert(s.take(s.len() as int) =~= s);
        s.len() as int
    }
}

/// Trimming takes white space off both ends of a text, all of it and nothing else:
/// what is left stands in the text from `r.0` to `r.1`.
pub proof fn trimming_takes_white_space_only(s: Seq<char>) -> (r: (int, int))
    ensures
        0 <= r.0 <= r.1 <= s.len(),
        trimmed(s) == s.subrange(r.0, r.1),
        is_blank(s.take(r.0)),
        is_blank(s.skip(r.1)),
        r.0 < r.1 ==> !is_white(s[r.0]) && !is_white(s[r.1 - 1]),
{
    let a = lemma_trim_start_cut(s);
    let t = s.skip(a);
    let b = lemma_trim_end_cut(t);
    lemma_trim_start_blank(s);
    lemma_trim_end_blank(t);
    assert(t.take(b) =~= s.subrange(a, a + b));
    assert(t.skip(b) =~= s.skip(a + b));
    if b > 0 {
        assert(t[0] == s[a]);
        assert(t.take(b).last() == s[a + b - 1]);
    }
    (a, a + b)
}

/// Trimming leaves nothing exactly where the text was blank.
pub proof fn lemma_trimmed_blank(s: Seq<char>)
    ensures
        (trimmed(s).len() == 0) == is_blank(s),
{
    lemma_trim_start_blank(s);
    lemma_trim_end_blank(trim_start(s));
    if trim_start(s).len() > 0 {
        assert(!is_white(trim_start(s)[0]));
    }
}

/// The text without white space at either end.
pub fn trim(s: &str) -> (r: String)
    ensures
        r@ == trimmed(s@),
{
    let cs = chars_of(s);
    let mut a: usize = 0;
    assert(cs@.skip(0) =~= cs@);
    while a < cs.len() && is_whitespace(cs[a])
        invariant
            a <= cs@.len(),
            trim_start(cs@) == trim_start(cs@.skip(a as int)),
        decreases cs@.len() - a,
    {
        assert(cs@.skip(a as int).skip(1) =~= cs@.skip(a as int + 1));
        a += 1;
    }
    let mut b: usize = cs.len();
    let ghost rest = cs@.skip(a as int);
    assert(trim_start(cs@) == rest);
    assert(cs@.subrange(a as int, b as int) =~= rest);
    while b > a && is_whitespace(cs[b - 1])
        invariant
            a <= b <= cs@.len(),
            trim_end(rest) == trim_end(cs@.subrange(a as int, b as int)),
        decreases b - a,
    {
        assert(cs@.subrange(a as int, b as int).drop_last() =~= cs@.subrange(a as int, b as int - 1));
        b -= 1;
    }
    slice_text(&cs, a, b)
}

/// The text without its leading white space.
pub fn trim_front(s: &str) -> (r: String)
    ensures
        r@ == trim_start(s@),
{
    let cs = chars_of(s);
    let mut a: usize = 0;
    assert(cs@.skip(0) =~= cs@);
    while a < cs.len() && is_whitespace(cs[a])
        invariant
            a <= cs@.len(),
            trim_start(cs@) == trim_start(cs@.skip(a as int)),
        decreases cs@.len() - a,
    {
        assert(cs@.skip(a as int).skip(1) =~= cs@.skip(a as int + 1));
        a += 1;
    }
    assert(cs@.subrange(a as int, cs@.len() as int) =~= cs@.skip(a as int));
    slice_text(&cs, a, cs.len())
}

/// Whether the text is nothing but white space.
pub fn blank(s: &str) -> (r: bool)
    ensures
        r == is_blank(s@),
{
    let cs = chars_of(s);
    let mut i: usize = 0;
    while i < cs.len()
        invariant
            i <= cs@.len(),
            cs@ == s@,
            forall|j: int| 0 <= j < i ==> is_white(#[trigger] s@[j]),
        decreases cs@.len() - i,
    {
        if !is_whitespace(cs[i]) {
            assert(!is_white(s@[i as int]));
            return false;
        }
        i += 1;
    }
    true
}

/// `p` stands in `s` at position `i`.
pub open spec fn matches_at(s: Seq<char>, i: int, p: Seq<char>) -> bool {
    0 <= i && i + p.len() <= s.len() && s.subrange(i, i + p.len()) == p
}

/// Whether `p` stands in `s` at position `i`.
pub fn matches_here(s: &Vec<char>, i: usize, p: &Vec<char>) -> (r: bool)
    requires
        i <= s@.len(),
    ensures
        r == matches_at(s@, i as int, p@),
{
    if p.len() > s.len() - i {
        return false;
    }
    let mut k: usize = 0;
    while k < p.len()
        invariant
            k <= p.len(),
            i + p.len() <= s.len(),
            forall|j: int| 0 <= j < k ==> #[trigger] p@[j] == s@[i + j],
        decreases p@.len() - k,
    {
        if s[i + k] != p[k] {
            assert(s@.subrange(i as int, i + p@.len())[k as int] == s@[i + k]);
            return false;
        }
        k += 1;
    }
    assert(s@.subrange(i as int, i + p@.len()) =~= p@);
    true
}

/// Whether `s` begins with `p`.
pub fn starts_with(s: &str, p: &str) -> (r: bool)
    ensures
        r == p@.is_prefix_of(s@),
{
    let cs = chars_of(s);
    let ps = chars_of(p);
    matches_here(&cs, 0, &ps)
}

/// Whether `s` ends with `p`.
pub fn ends_with(s: &str, p: &str) -> (r: bool)
    ensures
        r == p@.is_suffix_of(s@),
{
    let cs = chars_of(s);
    let ps = chars_of(p);
    if ps.len() > cs.len() {
        return false;
    }
    assert(cs@.subrange(cs@.len() - ps@.len(), cs@.len() as int) =~= cs@.skip(
        cs@.len() - ps@.len(),
    ));
    matches_here(&cs, cs.len() - ps.len(), &ps)
}

/// `p` occurs somewhere in `s`.
pub open spec fn has_text(s: Seq<char>, p: Seq<char>) -> bool {
    exists|i: int| matches_at(s, i, p)
}

/// Whether `p` occurs somewhere in `s`.
pub fn contains_text(s: &str, p: &str) -> (r: bool)
    ensures
        r == has_text(s@, p@),
{
    let cs = chars_of(s);
    let ps = chars_of(p);
    let mut i: usize = 0;
    loop
        invariant
            i <= cs@.len(),
            cs@ == s@,
            ps@ == p@,
            forall|j: int| 0 <= j < i ==> !matches_at(s@, j, p@),
        decreases cs@.len() - i,
    {
        if matches_here(&cs, i, &ps) {
            return true;
        }
        if i == cs.len() {
            return false;
        }
        i += 1;
    }
}

/// Whether the character occurs in the text.
pub fn contains_char(s: &str, c: char) -> (r: bool)
    ensures
        r == s@.contains(c),
{
    let cs = chars_of(s);
    let mut i: usize = 0;
    while i < cs.len()
        invariant
            i <= cs@.len(),
            cs@ == s@,
            forall|j: int| 0 <= j < i ==> s@[j] != c,
        decreases cs@.len() - i,
    {
        if cs[i] == c {
            assert(s@[i as int] == c);
            return true;
        }
        i += 1;
    }
    false
}

/// The text from position `i` on, with each occurrence of `from` that is met
/// going left to right replaced by `to`; an occurrence is not searched again.
pub open spec fn replaced_from(s: Seq<char>, i: int, from: Seq<char>, to: Seq<char>) -> Seq<char>
    decreases s.len() - i,
    when 0 <= i <= s.len() && from.len() > 0
{
    if i == s.len() {
        Seq::empty()
    } else if matches_at(s, i, from) {
        to + replaced_from(s, i + from.len(), from, to)
    } else {
        seq![s[i]] + replaced_from(s, i + 1, from, to)
    }
}

/// The text with each occurrence of `from`, left to right, replaced by `to`.
pub open spec fn replaced(s: Seq<char>, from: Seq<char>, to: Seq<char>) -> Seq<char> {
    replaced_from(s, 0, from, to)
}

/// Replaces each occurrence of `from`, left to right, by `to`.
pub fn replace_all(s: &str, from: &str, to: &str) -> (r: String)
    requires
        from@.len() > 0,
    ensures
        r@ == replaced(s@, from@, to@),
{
    let cs = chars_of(s);
    let ps = chars_of(from);
    let mut out = String::new();
    let mut i: usize = 0;
    while i < cs.len()
        invariant
            i <= cs@.len(),
            cs@ == s@,
            ps@ == from@,
            from@.len() > 0,
            out@ + replaced_from(s@, i as int, from@, to@) == replaced(s@, from@, to@),
        decreases cs@.len() - i,
    {
        let ghost before = out@;
        if matches_here(&cs, i, &ps) {
            push_text(&mut out, to);
            assert(before + (to@ + replaced_from(s@, i + ps@.len(), from@, to@)) =~= out@
                + replaced_from(s@, i + ps@.len(), from@, to@));
            i += ps.len();
        } else {
            out.push(cs[i]);
            assert(before + (seq![s@[i as int]] + replaced_from(s@, i + 1, from@, to@)) =~= out@
                + replaced_from(s@, i + 1, from@, to@));
            i += 1;
        }
    }
    assert(out@ + Seq::<char>::empty() =~= out@);
    out
}

/// The texts of a sequence of strings.
pub open spec fn texts(v: Seq<String>) -> Seq<Seq<char>> {
    Seq::new(v.len(), |i: int| v[i]@)
}

/// The texts of a sequence of string slices.
pub open spec fn str_texts(v: Seq<&str>) -> Seq<Seq<char>> {
    Seq::new(v.len(), |i: int| v[i]@)
}

/// What an optional string says.
pub open spec fn opt_text(o: Option<String>) -> Option<Seq<char>> {
    match o {
        Some(s) => Some(s@),
        None => None,
    }
}

/// Whether `name` is one of `v`.
pub fn has_name(v: &Vec<String>, name: &str) -> (r: bool)
    ensures
        r == texts(v@).contains(name@),
{
    let mut i: usize = 0;
    while i < v.len()
        invariant
            i <= v@.len(),
            forall|j: int| 0 <= j < i ==> #[trigger] texts(v@)[j] != name@,
        decreases v@.len() - i,
    {
        if same(v[i].as_str(), name) {
            assert(texts(v@)[i as int] == name@);
            return true;
        }
        i += 1;
    }
    false
}

/// Copies each string.
pub fn copy_names(v: &Vec<String>) -> (r: Vec<String>)
    ensures
        texts(r@) == texts(v@),
{
    let mut out: Vec<String> = Vec::new();
    let mut i: usize = 0;
    while i < v.len()
        invariant
            i <= v@.len(),
            out@.len() == i,
            forall|j: int| 0 <= j < i ==> #[trigger] out@[j]@ == v@[j]@,
        decreases v@.len() - i,
    {
        out.push(owned(v[i].as_str()));
        i += 1;
    }
    assert(texts(out@) =~= texts(v@));
    out
}

/// The position of the first newline at or after `i`, or the end.
pub open spec fn line_end(s: Seq<char>, i: int) -> int
    decreases s.len() - i,
{
    if i < 0 || i >= s.len() || s[i] == '\n' {
        i
    } else {
        line_end(s, i + 1)
    }
}

pub proof fn lemma_line_end(s: Seq<char>, i: int)
    requires
        0 <= i <= s.len(),
    ensures
        i <= line_end(s, i) <= s.len(),
        line_end(s, i) < s.len() ==> s[line_end(s, i)] == '\n',
        forall|j: int| i <= j < line_end(s, i) ==> s[j] != '\n',
    decreases s.len() - i,
{
    if i < s.len() && s[i] != '\n' {
        lemma_line_end(s, i + 1);
    }
}

/// A line that a newline ended, without the carriage return before it.
pub open spec fn without_cr(line: Seq<char>) -> Seq<char> {
    if line.len() > 0 && line.last() == '\r' {
        line.drop_last()
    } else {
        line
    }
}

/// The lines of the text from position `i` on. A newline ends a line, together
/// with a carriage return right before it; what follows the last newline is a
/// line of its own if it is not empty.
pub open spec fn lines_from(s: Seq<char>, i: int) -> Seq<Seq<char>>
    decreases s.len() - i,
    when 0 <= i <= s.len()
    via lines_from_terminates
{
    let e = line_end(s, i);
    if i == s.len() {
        Seq::empty()
    } else if e == s.len() {
        seq![s.subrange(i, e)]
    } else {
        seq![without_cr(s.subrange(i, e))] + lines_from(s, e + 1)
    }
}

#[via_fn]
proof fn lines_from_terminates(s: Seq<char>, i: int) {
    lemma_line_end(s, i);
}

/// The lines of a text.
pub open spec fn lines_of(s: Seq<char>) -> Seq<Seq<char>> {
    lines_from(s, 0)
}

/// Splits a text into its lines.
pub fn lines(s: &str) -> (r: Vec<String>)
    ensures
        texts(r@) == lines_of(s@),
{
    let cs = chars_of(s);
    let mut out: Vec<String> = Vec::new();
    let mut i: usize = 0;
    assert(texts(out@) + lines_from(s@, 0) =~= lines_of(s@));
    while i < cs.len()
        invariant
            i <= cs@.len(),
            cs@ == s@,
            texts(out@) + lines_from(s@, i as int) == lines_of(s@),
        decreases cs@.len() - i,
    {
        let mut e: usize = i;
        while e < cs.len() && cs[e] != '\n'
            invariant
                i <= e <= cs@.len(),
                cs@ == s@,
                line_end(s@, i as int) == line_end(s@, e as int),
            decreases cs@.len() - e,
        {
            e += 1;
        }
        assert(e as int == line_end(s@, i as int));
        let ghost before = texts(out@);
        let ended = e < cs.len();
        let stop: usize = if ended && e > i && cs[e - 1] == '\r' { e - 1 } else { e };
        let line = slice_text(&cs, i, stop);
        proof {
            let whole = s@.subrange(i as int, e as int);
            if ended {
                if stop < e {
                    assert(whole.drop_last() =~= line@);
                }
                assert(line@ == without_cr(whole));
            }
        }
        out.push(line);
        assert(texts(out@) =~= before.push(line@));
        if ended {
            assert(before + (seq![line@] + lines_from(s@, e as int + 1)) =~= texts(out@)
                + lines_from(s@, e as int + 1));
            i = e + 1;
        } else {
            assert(lines_from(s@, e as int) == Seq::<Seq<char>>::empty());
            assert(before + seq![line@] =~= texts(out@) + Seq::<Seq<char>>::empty());
            i = e;
        }
    }
    assert(texts(out@) + Seq::<Seq<char>>::empty() =~= texts(out@));
    out
}

/// The decimal digit of a value below ten.
pub open spec fn digit(d: nat) -> char {
    (48 + d) as char
}

/// A number in decimal notation.
pub open spec fn decimal(n: nat) -> Seq<char>
    decreases n,
{
    if n < 10 {
        seq![digit(n)]
    } else {
        decimal(n / 10).push(digit(n % 10))
    }
}

/// A number in decimal notation.
pub fn decimal_text(n: u64) -> (r: String)
    ensures
        r@ == decimal(n as nat),
    decreases n,
{
    let d: u8 = (n % 10) as u8;
    let c: char = (48 + d) as char;
    if n < 10 {
        let mut out = String::new();
        out.push(c);
        assert(out@ =~= seq![digit(n as nat)]);
        out
    } else {
        let mut out = decimal_text(n / 10);
        out.push(c);
        out
    }
}

/// A number in decimal notation, with a minus sign where it is negative.
pub open spec fn signed_decimal(n: int) -> Seq<char> {
    if n < 0 {
        seq!['-'] + decimal((-n) as nat)
    } else {
        decimal(n as nat)
    }
}

/// A signed number in decimal notation.
pub fn signed_decimal_text(n: i32) -> (r: String)
    ensures
        r@ == signed_decimal(n as int),
{
    if n < 0 {
        let mut out = String::new();
        out.push('-');
        let digits = decimal_text((-(n as i64)) as u64);
        push_text(&mut out, digits.as_str());
        assert(out@ =~= seq!['-'] + decimal((-(n as int)) as nat));
        out
    } else {
        decimal_text(n as u64)
    }
}

/// A signed number in decimal notation.
pub fn signed_decimal_wide(n: i64) -> (r: String)
    ensures
        r@ == signed_decimal(n as int),
{
    if n < 0 {
        let mut out = String::new();
        out.push('-');
        let digits = decimal_text((-(n as i128)) as u64);
        push_text(&mut out, digits.as_str());
        assert(out@ =~= seq!['-'] + decimal((-(n as int)) as nat));
        out
    } else {
        decimal_text(n as u64)
    }
}

proof fn lemma_decimal_digits(n: nat)
    ensures
        decimal(n).len() > 0,
        forall|i: int| 0 <= i < decimal(n).len() ==> is_digit(#[trigger] decimal(n)[i]),
        digits_value(decimal(n), decimal(n).len() as int) == Some(n),
    decreases n,
{
    let d = decimal(n);
    if n < 10 {
        assert(d =~= seq![digit(n)]);
        assert(digits_value(d, 0) == Some(0nat));
        assert(digits_value(d, 1) == Some(n));
    } else {
        lemma_decimal_digits(n / 10);
        let front = decimal(n / 10);
        lemma_same_digits(front, d, front.len() as int);
        assert(d[front.len() as int] == digit(n % 10));
        assert(digits_value(d, front.len() as int) == Some(n / 10));
        assert(digits_value(d, d.len() as int) == Some(n));
    }
}

proof fn lemma_same_digits(a: Seq<char>, b: Seq<char>, n: int)
    requires
        0 <= n <= a.len(),
        n <= b.len(),
        forall|i: int| 0 <= i < n ==> a[i] == b[i],
    ensures
        digits_value(a, n) == digits_value(b, n),
    decreases n,
{
    if n > 0 {
        lemma_same_digits(a, b, n - 1);
    }
}

/// A number is read back from its decimal notation.
pub proof fn decimal_reads_back(n: nat)
    ensures
        number_of(decimal(n)) == Some(n),
{
    lemma_decimal_digits(n);
    assert(is_digit(decimal(n)[0]));
}

/// Two numbers with the same decimal notation are the same, and it holds no
/// character but digits and, in front, a minus sign.
pub proof fn signed_decimal_is_distinct(a: int, b: int)
    ensures
        signed_decimal(a) == signed_decimal(b) ==> a == b,
        forall|i: int|
            0 <= i < signed_decimal(a).len() ==> is_digit(#[trigger] signed_decimal(a)[i])
                || signed_decimal(a)[i] == '-',
{
    let na = if a < 0 {
        (-a) as nat
    } else {
        a as nat
    };
    let nb = if b < 0 {
        (-b) as nat
    } else {
        b as nat
    };
    lemma_decimal_digits(na);
    lemma_decimal_digits(nb);
    if signed_decimal(a) == signed_decimal(b) {
        assert(is_digit(decimal(na)[0]) && is_digit(decimal(nb)[0]));
        assert((a < 0) == (signed_decimal(a)[0] == '-'));
        assert((b < 0) == (signed_decimal(b)[0] == '-'));
        if a < 0 {
            assert(decimal(na) =~= signed_decimal(a).skip(1));
            assert(decimal(nb) =~= signed_decimal(b).skip(1));
        }
        assert(decimal(na) == decimal(nb));
    }
}

/// The texts with the separator between them, the first `n` of them.
pub open spec fn joined(s: Seq<Seq<char>>, sep: Seq<char>, n: int) -> Seq<char>
    decreases n,
{
    if n <= 0 {
        Seq::empty()
    } else if n == 1 {
        s[0]
    } else {
        joined(s, sep, n - 1) + sep + s[n - 1]
    }
}

/// Joins texts with a separator between them.
pub fn join(parts: &Vec<String>, sep: &str) -> (r: String)
    ensures
        r@ == joined(texts(parts@), sep@, parts@.len() as int),
{
    let ghost s = texts(parts@);
    let mut out = String::new();
    let mut i: usize = 0;
    while i < parts.len()
        invariant
            i <= parts@.len(),
            s == texts(parts@),
            out@ == joined(s, sep@, i as int),
        decreases parts@.len() - i,
    {
        assert(s[i as int] == parts@[i as int]@);
        if i > 0 {
            push_text(&mut out, sep);
        }
        push_text(&mut out, parts[i].as_str());
        if i == 0 {
            assert(out@ =~= s[0]);
        }
        i += 1;
    }
    out
}

/// The first position at or behind `i` where `p` stands.
pub open spec fn found_from(s: Seq<char>, p: Seq<char>, i: int) -> Option<int>
    decreases s.len() - i,
    when 0 <= i <= s.len()
{
    if matches_at(s, i, p) {
        Some(i)
    } else if i == s.len() {
        None
    } else {
        found_from(s, p, i + 1)
    }
}

/// Finds the first position where `p` stands.
pub fn find_text(s: &Vec<char>, p: &Vec<char>) -> (r: Option<usize>)
    ensures
        (match r {
            Some(k) => Some(k as int),
            None => None,
        }) == found_from(s@, p@, 0),
        r matches Some(k) ==> matches_at(s@, k as int, p@),
{
    let mut i: usize = 0;
    loop
        invariant
            i <= s.len(),
            found_from(s@, p@, 0) == found_from(s@, p@, i as int),
        decreases s@.len() - i,
    {
        if matches_here(s, i, p) {
            return Some(i);
        }
        if i == s.len() {
            return None;
        }
        i += 1;
    }
}

/// The first position at or behind `i` of the character, or the end.
pub open spec fn char_from(s: Seq<char>, c: char, i: int) -> int
    decreases s.len() - i,
    when 0 <= i <= s.len()
{
    if i == s.len() || s[i] == c {
        i
    } else {
        char_from(s, c, i + 1)
    }
}

/// Finds the first position at or behind `i` of the character, or the end.
pub fn find_char(s: &Vec<char>, c: char, from: usize) -> (r: usize)
    requires
        from <= s@.len(),
    ensures
        r == char_from(s@, c, from as int),
        from <= r <= s@.len(),
        r < s@.len() ==> s@[r as int] == c,
{
    let mut i: usize = from;
    while i < s.len() && s[i] != c
        invariant
            from <= i <= s@.len(),
            char_from(s@, c, from as int) == char_from(s@, c, i as int),
        decreases s@.len() - i,
    {
        i += 1;
    }
    i
}

/// A decimal digit.
pub open spec fn is_digit(c: char) -> bool {
    '0' <= c && c <= '9'
}

/// The value of the first `n` characters, where they are decimal digits.
pub open spec fn digits_value(s: Seq<char>, n: int) -> Option<nat>
    decreases n,
{
    if n <= 0 {
        Some(0)
    } else {
        match digits_value(s, n - 1) {
            Some(v) => if is_digit(s[n - 1]) {
                Some((10 * v + (s[n - 1] as int - 48)) as nat)
            } else {
                None
            },
            None => None,
        }
    }
}

/// The number that a text is: decimal digits, perhaps behind a plus sign.
pub open spec fn number_of(s: Seq<char>) -> Option<nat> {
    let d = if s.len() > 0 && s[0] == '+' {
        s.subrange(1, s.len() as int)
    } else {
        s
    };
    if d.len() == 0 {
        None
    } else {
        digits_value(d, d.len() as int)
    }
}

/// The number that a text is, where it is no larger than `max`.
pub open spec fn number_upto(s: Seq<char>, max: u64) -> Option<u64> {
    match number_of(s) {
        Some(v) => if v <= max {
            Some(v as u64)
        } else {
            None
        },
        None => None,
    }
}

proof fn lemma_digits_end(s: Seq<char>, n: int, m: int)
    requires
        0 <= n <= m <= s.len(),
        digits_value(s, n) is None,
    ensures
        digits_value(s, m) is None,
    decreases m,
{
    if n < m {
        lemma_digits_end(s, n, m - 1);
    }
}

/// Reads a number, where the text is one and it is no larger than `max`.
pub fn parse_number(s: &str, max: u64) -> (r: Option<u64>)
    ensures
        r == number_upto(s@, max),
{
    let cs = chars_of(s);
    let mut i: usize = 0;
    if cs.len() > 0 && cs[0] == '+' {
        i = 1;
    }
    if i == cs.len() {
        return None;
    }
    let start: usize = i;
    let ghost d = s@.subrange(start as int, s@.len() as int);
    assert(start == 0 ==> d =~= s@);
    let mut value: u64 = 0;
    let mut over = false;
    while i < cs.len()
        invariant
            start <= i <= cs.len(),
            start <= 1,
            cs@ == s@,
            d == s@.subrange(start as int, s@.len() as int),
            d.len() > 0,
            number_of(s@) == digits_value(d, d.len() as int),
            digits_value(d, i - start) is Some,
            !over ==> digits_value(d, i - start) == Some(value as nat) && value <= max,
            over ==> digits_value(d, i - start)->0 > max,
        decreases cs@.len() - i,
    {
        let c = char_at(&cs, i);
        assert(d[i - start] == c);
        if c < '0' || c > '9' {
            proof {
                lemma_digits_end(d, i - start + 1, d.len() as int);
            }
            return None;
        }
        let k: u64 = (code_of(c) - 48) as u64;
        if !over {
            if value > (u64::MAX - k) / 10 {
                over = true;
            } else {
                value = 10 * value + k;
                if value > max {
                    over = true;
                }
            }
        }
        i += 1;
    }
    if over {
        None
    } else {
        Some(value)
    }
}

/// Dictionary order by character code, from position `i` on.
pub open spec fn precedes_from(a: Seq<char>, b: Seq<char>, i: int) -> bool
    decreases a.len() - i,
    when 0 <= i <= a.len()
{
    if i >= b.len() {
        false
    } else if i >= a.len() {
        true
    } else if a[i] == b[i] {
        precedes_from(a, b, i + 1)
    } else {
        (a[i] as int) < (b[i] as int)
    }
}

/// `a` comes before `b` in dictionary order by character code.
pub open spec fn precedes(a: Seq<char>, b: Seq<char>) -> bool {
    precedes_from(a, b, 0)
}

proof fn lemma_precedes_irreflexive_from(a: Seq<char>, i: int)
    requires
        0 <= i <= a.len(),
    ensures
        !precedes_from(a, a, i),
    decreases a.len() - i,
{
    if i < a.len() {
        lemma_precedes_irreflexive_from(a, i + 1);
    }
}

/// No text comes before itself.
pub proof fn lemma_precedes_irreflexive(a: Seq<char>)
    ensures
        !precedes(a, a),
{
    lemma_precedes_irreflexive_from(a, 0);
}

proof fn lemma_precedes_transitive_from(a: Seq<char>, b: Seq<char>, c: Seq<char>, i: int)
    requires
        0 <= i <= a.len(),
        i <= b.len(),
        precedes_from(a, b, i),
        precedes_from(b, c, i),
    ensures
        precedes_from(a, c, i),
    decreases a.len() - i,
{
    if i < a.len() && i < b.len() && i < c.len() && a[i] == b[i] && b[i] == c[i] {
        lemma_precedes_transitive_from(a, b, c, i + 1);
    }
}

/// The order is transitive.
pub proof fn lemma_precedes_transitive(a: Seq<char>, b: Seq<char>, c: Seq<char>)
    requires
        precedes(a, b),
        precedes(b, c),
    ensures
        precedes(a, c),
{
    lemma_precedes_transitive_from(a, b, c, 0);
}

proof fn lemma_precedes_total_from(a: Seq<char>, b: Seq<char>, i: int)
    requires
        0 <= i <= a.len(),
        i <= b.len(),
        a.subrange(0, i) == b.subrange(0, i),
        !precedes_from(a, b, i),
        !precedes_from(b, a, i),
    ensures
        a == b,
    decreases a.len() - i,
{
    if i < a.len() && i < b.len() && a[i] == b[i] {
        assert(a.subrange(0, i + 1) =~= a.subrange(0, i).push(a[i]));
        assert(b.subrange(0, i + 1) =~= b.subrange(0, i).push(b[i]));
        lemma_precedes_total_from(a, b, i + 1);
    } else {
        assert(i == a.len() && i == b.len());
        assert(a.subrange(0, i) =~= a);
        assert(b.subrange(0, i) =~= b);
    }
}

/// Of two different texts one comes before the other.
pub proof fn lemma_precedes_total(a: Seq<char>, b: Seq<char>)
    ensures
        a == b || precedes(a, b) || precedes(b, a),
{
    if !precedes(a, b) && !precedes(b, a) {
        assert(a.subrange(0, 0) =~= b.subrange(0, 0));
        lemma_precedes_total_from(a, b, 0);
    }
}

/// Whether `a` comes before `b` in dictionary order by character code.
pub fn comes_before(a: &str, b: &str) -> (r: bool)
    ensures
        r == precedes(a@, b@),
{
    let x = chars_of(a);
    let y = chars_of(b);
    let mut i: usize = 0;
    loop
        invariant
            i <= x@.len(),
            i <= y@.len(),
            x@ == a@,
            y@ == b@,
            precedes(a@, b@) == precedes_from(a@, b@, i as int),
        decreases x@.len() - i,
    {
        if i >= y.len() {
            return false;
        }
        if i >= x.len() {
            return true;
        }
        if x[i] != y[i] {
            return code_of(x[i]) < code_of(y[i]);
        }
        i += 1;
    }
}

proof fn lemma_replaced_front(s: Seq<char>, i: int, e: int, from: Seq<char>, to: Seq<char>)
    requires
        0 <= i <= e <= s.len(),
        from.len() > 0,
        forall|j: int| i <= j < e ==> !#[trigger] matches_at(s, j, from),
    ensures
        replaced_from(s, i, from, to) == s.subrange(i, e) + replaced_from(s, e, from, to),
    decreases e - i,
{
    if i < e {
        assert(!matches_at(s, i, from));
        lemma_replaced_front(s, i + 1, e, from, to);
        assert(s.subrange(i, e) =~= seq![s[i]] + s.subrange(i + 1, e));
        assert(replaced_from(s, i, from, to) =~= s.subrange(i, e) + replaced_from(s, e, from, to));
    } else {
        assert(s.subrange(i, e) + replaced_from(s, e, from, to) =~= replaced_from(s, e, from, to));
    }
}

proof fn lemma_replaced_shift(a: Seq<char>, b: Seq<char>, i: int, from: Seq<char>, to: Seq<char>)
    requires
        0 <= i <= b.len(),
        from.len() > 0,
    ensures
        replaced_from(a + b, a.len() + i, from, to) == replaced_from(b, i, from, to),
    decreases b.len() - i,
{
    if i < b.len() {
        let s = a + b;
        let n = a.len() + i;
        assert(matches_at(s, n, from) == matches_at(b, i, from)) by {
            if i + from.len() <= b.len() {
                assert(s.subrange(n, n + from.len()) =~= b.subrange(i, i + from.len()));
            }
        }
        if matches_at(b, i, from) {
            lemma_replaced_shift(a, b, i + from.len(), from, to);
        } else {
            assert(s[n] == b[i]);
            lemma_replaced_shift(a, b, i + 1, from, to);
        }
    }
}

/// Replacing takes the first occurrence of a text and leaves what stands before it as
/// it is; then it goes on behind it. A text without an occurrence stays as it is.
pub proof fn replacing_goes_from_one_occurrence_to_the_next(
    a: Seq<char>,
    b: Seq<char>,
    from: Seq<char>,
    to: Seq<char>,
)
    requires
        from.len() > 0,
    ensures
        !has_text(a, from) ==> replaced(a, from, to) == a,
        (forall|j: int| 0 <= j < a.len() ==> !#[trigger] matches_at(a + from + b, j, from))
            ==> replaced(a + from + b, from, to) == a + to + replaced(b, from, to),
{
    if !has_text(a, from) {
        assert forall|j: int| 0 <= j < a.len() implies !#[trigger] matches_at(a, j, from) by {}
        lemma_replaced_front(a, 0, a.len() as int, from, to);
        assert(a.subrange(0, a.len() as int) =~= a);
        assert(replaced(a, from, to) =~= a);
    }
    let s = a + from + b;
    if forall|j: int| 0 <= j < a.len() ==> !#[trigger] matches_at(s, j, from) {
        let n = a.len() as int;
        lemma_replaced_front(s, 0, n, from, to);
        assert(s.subrange(0, n) =~= a);
        assert(s.subrange(n, n + from.len()) =~= from);
        assert(matches_at(s, n, from));
        lemma_replaced_shift(a + from, b, 0, from, to);
        assert(replaced(s, from, to) =~= a + to + replaced(b, from, to));
    }
}

proof fn lemma_lines_rejoin(s: Seq<char>, i: int)
    requires
        0 <= i <= s.len(),
        !s.contains('\r'),
        s.len() > 0 ==> s.last() == '\n',
    ensures
        Seq::new(lines_from(s, i).len(), |k: int| lines_from(s, i)[k] + seq!['\n']).flatten()
            == s.skip(i),
    decreases s.len() - i,
{
    lemma_line_end(s, i);
    let all = lines_from(s, i);
    let a = Seq::new(all.len(), |k: int| all[k] + seq!['\n']);
    if i == s.len() {
        assert(a =~= Seq::<Seq<char>>::empty());
        assert(s.skip(i) =~= Seq::<char>::empty());
    } else {
        let e = line_end(s, i);
        if e == s.len() {
            assert(s[s.len() - 1] != '\n');
        }
        let x = s.subrange(i, e);
        if x.len() > 0 {
            assert(x.last() == s[e - 1]);
            assert(s.contains(s[e - 1]));
        }
        lemma_lines_rejoin(s, e + 1);
        let rest = lines_from(s, e + 1);
        assert(a.drop_first() =~= Seq::new(rest.len(), |k: int| rest[k] + seq!['\n']));
        assert(a[0] == x + seq!['\n']);
        assert(s.skip(i) =~= x + seq!['\n'] + s.skip(e + 1));
    }
}

/// The lines of a text that ends with its last line are all of it: each with a
/// newline behind it, they give the text back.
pub proof fn the_lines_of_a_text_are_all_of_it(s: Seq<char>)
    requires
        !s.contains('\r'),
        s.len() > 0 ==> s.last() == '\n',
    ensures
        Seq::new(lines_of(s).len(), |k: int| lines_of(s)[k] + seq!['\n']).flatten() == s,
{
    lemma_lines_rejoin(s, 0);
    assert(s.skip(0) =~= s);
}

/// Texts are joined in their order, all of them, with the separator between each two.
pub proof fn joining_puts_the_separator_between(s: Seq<Seq<char>>, sep: Seq<char>, n: int)
    requires
        0 < n <= s.len(),
    ensures
        joined(s, sep, n) + sep == Seq::new(n as nat, |k: int| s[k] + sep).flatten(),
    decreases n,
{
    let a = Seq::new(n as nat, |k: int| s[k] + sep);
    let last = seq![s[n - 1] + sep];
    last.lemma_flatten_one_element();
    if n == 1 {
        assert(a =~= last);
    } else {
        joining_puts_the_separator_between(s, sep, n - 1);
        let b = Seq::new((n - 1) as nat, |k: int| s[k] + sep);
        assert(a =~= b + last);
        vstd::seq_lib::lemma_flatten_concat(b, last);
        assert(joined(s, sep, n) + sep =~= joined(s, sep, n - 1) + sep + (s[n - 1] + sep));
    }
}

/// A text is found where it stands first.
pub proof fn the_first_occurrence_is_found(s: Seq<char>, p: Seq<char>, i: int)
    requires
        0 <= i <= s.len(),
    ensures
        found_from(s, p, i) matches Some(k) ==> i <= k <= s.len() && matches_at(s, k, p),
        found_from(s, p, i) matches Some(k) ==> forall|j: int|
            i <= j < k ==> !#[trigger] matches_at(s, j, p),
        found_from(s, p, i) is None ==> forall|j: int|
            i <= j <= s.len() ==> !#[trigger] matches_at(s, j, p),
    decreases s.len() - i,
{
    if !matches_at(s, i, p) && i < s.len() {
        the_first_occurrence_is_found(s, p, i + 1);
    }
}

/// A character is found where it stands first, else the end.
pub proof fn the_first_character_is_found(s: Seq<char>, c: char, i: int)
    requires
        0 <= i <= s.len(),
    ensures
        i <= char_from(s, c, i) <= s.len(),
        char_from(s, c, i) < s.len() ==> s[char_from(s, c, i)] == c,
        forall|j: int| i <= j < char_from(s, c, i) ==> s[j] != c,
    decreases s.len() - i,
{
    if i < s.len() && s[i] != c {
        the_first_character_is_found(s, c, i + 1);
    }
}

/// One text comes before another where it is the beginning of it, or where it has the
/// smaller character at the first place at which they differ.
pub proof fn texts_are_ordered_by_their_characters(a: Seq<char>, b: Seq<char>, k: int)
    requires
        0 <= k <= a.len(),
        k <= b.len(),
        forall|j: int| 0 <= j < k ==> a[j] == #[trigger] b[j],
    ensures
        k == a.len() && k < b.len() ==> precedes(a, b),
        k < a.len() && k < b.len() && a[k] != b[k] ==> precedes(a, b) == ((a[k] as int) < (
        b[k] as int)),
        k == b.len() ==> !precedes(a, b),
{
    lemma_precedes_from(a, b, 0, k);
}

proof fn lemma_precedes_from(a: Seq<char>, b: Seq<char>, i: int, k: int)
    requires
        0 <= i <= k <= a.len(),
        k <= b.len(),
        forall|j: int| i <= j < k ==> a[j] == #[trigger] b[j],
    ensures
        precedes_from(a, b, i) == precedes_from(a, b, k),
    decreases k - i,
{
    if i < k {
        assert(a[i] == b[i]);
        lemma_precedes_from(a, b, i + 1, k);
    }
}

/// A text holds each of the parts that it is put together from.
pub proof fn lemma_holds_part(a: Seq<char>, x: Seq<char>, b: Seq<char>)
    ensures
        has_text(a + x + b, x),
{
    let s = a + x + b;
    let i = a.len() as int;
    assert(s.subrange(i, i + x.len()) =~= x);
    assert(matches_at(s, i, x));
}

/// Texts that are joined all stand in the result.
pub proof fn joined_texts_are_all_there(s: Seq<Seq<char>>, sep: Seq<char>, n: int, k: int)
    requires
        0 <= k < n <= s.len(),
    ensures
        has_text(joined(s, sep, n), s[k]),
    decreases n,
{
    let e = Seq::<char>::empty();
    if n == 1 {
        lemma_holds_part(e, s[0], e);
        assert(e + s[0] + e =~= s[0]);
    } else if k == n - 1 {
        let front = joined(s, sep, n - 1) + sep;
        lemma_holds_part(front, s[k], e);
        assert(front + s[k] + e =~= joined(s, sep, n));
    } else {
        joined_texts_are_all_there(s, sep, n - 1, k);
        lemma_holds_more(e, joined(s, sep, n - 1), sep + s[n - 1], s[k]);
        assert(e + joined(s, sep, n - 1) + (sep + s[n - 1]) =~= joined(s, sep, n));
    }
}

/// What stands in a part of a text stands in the text.
pub proof fn lemma_holds_more(a: Seq<char>, m: Seq<char>, b: Seq<char>, x: Seq<char>)
    requires
        has_text(m, x),
    ensures
        has_text(a + m + b, x),
{
    let i = choose|i: int| matches_at(m, i, x);
    let s = a + m + b;
    let j = a.len() + i;
    assert(s.subrange(j, j + x.len()) =~= m.subrange(i, i + x.len()));
    assert(matches_at(s, j, x));
}

/// A number that fits is read back from its decimal notation, white space around it
/// aside; one that does not fit is not read.
pub proof fn numbers_are_read_as_they_are_written(n: nat, max: u64)
    ensures
        n <= max ==> number_upto(decimal(n), max) == Some(n as u64),
        n > max ==> number_upto(decimal(n), max) is None,
        trimmed(decimal(n)) == decimal(n),
        forall|i: int| 0 <= i < decimal(n).len() ==> is_digit(#[trigger] decimal(n)[i]),
        decimal(n).len() > 0,
{
    decimal_reads_back(n);
    lemma_decimal_digits(n);
    let d = decimal(n);
    let (a, b) = trimming_takes_white_space_only(d);
    if a > 0 {
        assert(d.take(a)[0] == d[0]);
        assert(is_digit(d[0]));
    }
    if b < d.len() {
        assert(d.skip(b)[0] == d[b]);
        assert(is_digit(d[b]));
    }
    assert(d.subrange(0, d.len() as int) =~= d);
}

/// Anything in a text that is no digit, and no plus sign in front, makes it no number.
pub proof fn only_digits_make_a_number(s: Seq<char>, i: int, max: u64)
    requires
        0 <= i < s.len(),
        !is_digit(s[i]),
        i > 0 || s[0] != '+',
    ensures
        number_upto(s, max) is None,
{
    let d = if s[0] == '+' {
        s.subrange(1, s.len() as int)
    } else {
        s
    };
    let k = if s[0] == '+' {
        i - 1
    } else {
        i
    };
    assert(d[k] == s[i]);
    lemma_no_value(d, k, d.len() as int);
}

proof fn lemma_no_value(s: Seq<char>, k: int, n: int)
    requires
        0 <= k < n <= s.len(),
        !is_digit(s[k]),
    ensures
        digits_value(s, n) is None,
    decreases n,
{
    if k < n - 1 {
        lemma_no_value(s, k, n - 1);
    }
}

} // verus!
