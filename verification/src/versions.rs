//! The versions of all installed distributions: noted before an update, held
//! against what is there after it, and brought back where the update failed.
use vstd::prelude::*;

use crate::names::NameMap;
use crate::names;
use crate::pins::{needs_torch_index, recorded_distributions, requirement_name, torch_packages};
use crate::pins;
use crate::reader::lower_letter;
use crate::reader;
use crate::text::{
    char_at, chars_of, contains_text, owned, push_text, slice_text, starts_with, trim,
};
use crate::text;

verus! {

/// What marks the line with the versions that are recorded.
pub const VERSIONS_MARKER: &'static str = "UGG_RESOLVED_VERSIONS ";

/// What marks the line with the versions of everything.
pub const ALL_VERSIONS_MARKER: &'static str = "UGG_ALL_VERSIONS ";

/// What `serde_json` reads of a text as a table of strings: its entries, or
/// nothing where the text is no such table.
pub uninterp spec fn json_string_pairs(text: Seq<char>) -> Option<Seq<(Seq<char>, Seq<char>)>>;

/// The pairs of strings that a vector holds.
pub open spec fn pair_texts(v: Seq<(String, String)>) -> Seq<(Seq<char>, Seq<char>)> {
    Seq::new(v.len(), |i: int| (v[i].0@, v[i].1@))
}

/// What an optional vector of pairs says.
pub open spec fn opt_pairs(o: Option<Vec<(String, String)>>) -> Option<
    Seq<(Seq<char>, Seq<char>)>,
> {
    match o {
        Some(v) => Some(pair_texts(v@)),
        None => None,
    }
}

/// `serde_json::from_str` into a table of strings: its entries in the order of
/// the table, or nothing where it reports an error.
#[verifier::external_body]
fn json_pairs(json: &str) -> (r: Option<Vec<(String, String)>>)
    ensures
        opt_pairs(r) == json_string_pairs(json@),
{
    let table: std::collections::BTreeMap<String, String> = serde_json::from_str(json).ok()?;
    Some(table.into_iter().collect())
}

/// `char::to_lowercase`: the characters that a character becomes in lower case.
pub uninterp spec fn lowercase_of(c: char) -> Seq<char>;

/// `char::to_lowercase`: the character in lower case, which may be more than
/// one character.
#[verifier::external_body]
fn char_to_lowercase(c: char) -> (r: String)
    ensures
        r@ == lowercase_of(c),
{
    c.to_lowercase().collect()
}

/// A character in lower case.
pub open spec fn in_lower(c: char) -> Seq<char> {
    if (c as int) < 0x80 {
        seq![reader::ascii_lower(c)]
    } else {
        lowercase_of(c)
    }
}

/// A character that separates the words of a distribution's name.
pub open spec fn is_separator(c: char) -> bool {
    c == '-' || c == '_' || c == '.'
}

/// The name from position `i` on, in lower case, with one hyphen for each run
/// of separators between words; `sep` says that separators were passed, and
/// `out` is the name so far.
pub open spec fn normal_from(s: Seq<char>, i: int, sep: bool, out: Seq<char>) -> Seq<char>
    decreases s.len() - i,
    when 0 <= i <= s.len()
{
    if i == s.len() {
        out
    } else if is_separator(s[i]) {
        normal_from(s, i + 1, true, out)
    } else if sep && out.len() > 0 {
        normal_from(s, i + 1, false, out.push('-') + in_lower(s[i]))
    } else {
        normal_from(s, i + 1, false, out + in_lower(s[i]))
    }
}

/// A distribution's name as names are held against each other.
pub open spec fn normal_name(s: Seq<char>) -> Seq<char> {
    normal_from(s, 0, false, Seq::empty())
}

/// Brings a distribution's name into the form in which names are held against
/// each other: lower case, with one hyphen for each run of separators.
pub fn normalize_dist_name(name: &str) -> (r: String)
    ensures
        r@ == normal_name(name@),
{
    let cs = chars_of(name);
    let mut out = String::new();
    let mut sep = false;
    let mut i: usize = 0;
    while i < cs.len()
        invariant
            i <= cs@.len(),
            cs@ == name@,
            normal_from(name@, i as int, sep, out@) == normal_name(name@),
        decreases cs@.len() - i,
    {
        let c = char_at(&cs, i);
        if c == '-' || c == '_' || c == '.' {
            sep = true;
            i += 1;
            continue;
        }
        if sep && !out.as_str().is_empty() {
            out.push('-');
        }
        sep = false;
        let ghost prior = out@;
        if text::code_of(c) < 0x80 {
            out.push(lower_letter(c));
            assert(out@ =~= prior + in_lower(c));
        } else {
            let l = char_to_lowercase(c);
            push_text(&mut out, l.as_str());
        }
        assert(out@ == prior + in_lower(c));
        i += 1;
    }
    out
}

/// The name from position `i` on, in lower case, with one hyphen in place of each
/// run of separators.
pub open spec fn hyphenated(s: Seq<char>, i: int) -> Seq<char>
    decreases s.len() - i,
    when 0 <= i <= s.len()
{
    if i == s.len() {
        Seq::empty()
    } else if !is_separator(s[i]) {
        in_lower(s[i]) + hyphenated(s, i + 1)
    } else if i > 0 && is_separator(s[i - 1]) {
        hyphenated(s, i + 1)
    } else {
        seq!['-'] + hyphenated(s, i + 1)
    }
}

proof fn lemma_hyphenated(s: Seq<char>, i: int, out: Seq<char>)
    requires
        0 < i <= s.len(),
        out.len() > 0,
        !is_separator(s.last()),
    ensures
        normal_from(s, i, is_separator(s[i - 1]), out) == out + (if is_separator(s[i - 1]) {
            seq!['-']
        } else {
            Seq::empty()
        }) + hyphenated(s, i),
    decreases s.len() - i,
{
    let sep = is_separator(s[i - 1]);
    let mid: Seq<char> = if sep { seq!['-'] } else { Seq::empty() };
    if i == s.len() {
        assert(out + mid + hyphenated(s, i) =~= out);
    } else if is_separator(s[i]) {
        lemma_hyphenated(s, i + 1, out);
        assert(out + mid + hyphenated(s, i) =~= out + seq!['-'] + hyphenated(s, i + 1));
    } else {
        let next = if sep { out.push('-') + in_lower(s[i]) } else { out + in_lower(s[i]) };
        lemma_hyphenated(s, i + 1, next);
        assert(next + Seq::<char>::empty() + hyphenated(s, i + 1) =~= out + mid + hyphenated(
            s,
            i,
        ));
    }
}

/// A name that neither begins nor ends with a separator is normalised by putting
/// it in lower case, with one hyphen in place of each run of separators. Its first
/// character is an ASCII character, as that of a distribution's name is.
pub proof fn each_run_of_separators_becomes_one_hyphen(s: Seq<char>)
    requires
        s.len() > 0,
        (s[0] as int) < 0x80,
        !is_separator(s[0]),
        !is_separator(s.last()),
    ensures
        normal_name(s) == hyphenated(s, 0),
{
    let first = in_lower(s[0]);
    assert(Seq::<char>::empty() + first =~= first);
    lemma_hyphenated(s, 1, first);
    assert(first + Seq::<char>::empty() + hyphenated(s, 1) =~= hyphenated(s, 0));
}

/// A name in which there is nothing to normalise: ASCII characters in lower case,
/// with single hyphens between words.
pub open spec fn is_normal(t: Seq<char>) -> bool {
    forall|k: int|
        0 <= k < t.len() ==> (#[trigger] t[k] as int) < 0x80 && reader::ascii_lower(t[k]) == t[k]
            && (is_separator(t[k]) ==> t[k] == '-' && 0 < k < t.len() - 1 && !is_separator(t[k - 1]))
}

proof fn lemma_normal_from(s: Seq<char>, i: int, sep: bool, out: Seq<char>)
    requires
        0 <= i <= s.len(),
        forall|k: int| 0 <= k < s.len() ==> (#[trigger] s[k] as int) < 0x80,
        is_normal(out),
    ensures
        is_normal(normal_from(s, i, sep, out)),
    decreases s.len() - i,
{
    if i == s.len() {
    } else if is_separator(s[i]) {
        lemma_normal_from(s, i + 1, true, out);
    } else {
        let c = reader::ascii_lower(s[i]);
        assert((c as int) < 0x80 && reader::ascii_lower(c) == c && !is_separator(c));
        let next = if sep && out.len() > 0 {
            out.push('-') + in_lower(s[i])
        } else {
            out + in_lower(s[i])
        };
        assert forall|k: int| 0 <= k < next.len() implies (#[trigger] next[k] as int) < 0x80
            && reader::ascii_lower(next[k]) == next[k] && (is_separator(next[k]) ==> next[k] == '-'
            && 0 < k < next.len() - 1 && !is_separator(next[k - 1])) by {
            if k < out.len() {
                assert(next[k] == out[k]);
                if k > 0 {
                    assert(next[k - 1] == out[k - 1]);
                }
            } else if k < next.len() - 1 {
                assert(next[k] == '-');
                assert(next[k - 1] == out[k - 1]);
            } else {
                assert(next[k] == c);
            }
        }
        lemma_normal_from(s, i + 1, false, next);
    }
}

proof fn lemma_normal_stays(t: Seq<char>, i: int)
    requires
        is_normal(t),
        0 <= i <= t.len(),
    ensures
        i == 0 || !is_separator(t[i - 1]) ==> normal_from(t, i, false, t.take(i)) == t,
        i > 0 && is_separator(t[i - 1]) ==> normal_from(t, i, true, t.take(i - 1)) == t,
    decreases t.len() - i,
{
    if i == t.len() {
        assert(t.take(i) =~= t);
    } else {
        lemma_normal_stays(t, i + 1);
        if is_separator(t[i]) {
            assert(i == 0 || !is_separator(t[i - 1]));
        } else if i > 0 && is_separator(t[i - 1]) {
            assert(t.take(i - 1).push('-') + in_lower(t[i]) =~= t.take(i + 1));
        } else {
            assert(t.take(i) + in_lower(t[i]) =~= t.take(i + 1));
        }
    }
}

/// Normalising a name of ASCII characters, as a distribution's name is, leaves
/// nothing to normalise: doing so again changes nothing.
pub proof fn normalising_twice_changes_nothing(s: Seq<char>)
    requires
        forall|k: int| 0 <= k < s.len() ==> (#[trigger] s[k] as int) < 0x80,
    ensures
        is_normal(normal_name(s)),
        normal_name(normal_name(s)) == normal_name(s),
{
    lemma_normal_from(s, 0, false, Seq::empty());
    let t = normal_name(s);
    lemma_normal_stays(t, 0);
    assert(t.take(0) =~= Seq::<char>::empty());
}

/// The table of the first `n` pairs; of two with one name the later counts.
pub open spec fn pairs_table(p: Seq<(Seq<char>, Seq<char>)>, n: int) -> Map<Seq<char>, Seq<char>>
    decreases n,
{
    if n <= 0 {
        Map::empty()
    } else {
        pairs_table(p, n - 1).insert(p[n - 1].0, p[n - 1].1)
    }
}

/// The pairs with their names normalised.
pub open spec fn normal_pairs(p: Seq<(Seq<char>, Seq<char>)>) -> Seq<(Seq<char>, Seq<char>)> {
    Seq::new(p.len(), |i: int| (normal_name(p[i].0), p[i].1))
}

/// The table of pairs, their names normalised where that is asked for.
pub fn table_from_pairs(pairs: &Vec<(String, String)>, normalize: bool) -> (r: NameMap)
    ensures
        r.wf(),
        r@ == (if normalize {
            pairs_table(normal_pairs(pair_texts(pairs@)), pairs@.len() as int)
        } else {
            pairs_table(pair_texts(pairs@), pairs@.len() as int)
        }),
{
    let ghost p = pair_texts(pairs@);
    let mut out = NameMap::new();
    let mut i: usize = 0;
    while i < pairs.len()
        invariant
            i <= pairs@.len(),
            p == pair_texts(pairs@),
            out.wf(),
            out@ == (if normalize {
                pairs_table(normal_pairs(p), i as int)
            } else {
                pairs_table(p, i as int)
            }),
        decreases pairs@.len() - i,
    {
        assert(p[i as int] == (pairs@[i as int].0@, pairs@[i as int].1@));
        if normalize {
            let name = normalize_dist_name(pairs[i].0.as_str());
            assert(normal_pairs(p)[i as int] == (name@, pairs@[i as int].1@));
            out.insert(name.as_str(), pairs[i].1.as_str());
        } else {
            out.insert(pairs[i].0.as_str(), pairs[i].1.as_str());
        }
        i += 1;
    }
    out
}

/// What stands behind a marker, where the line, without white space at its
/// ends, begins with it.
pub open spec fn behind_marker(line: Seq<char>, marker: Seq<char>) -> Option<Seq<char>> {
    let l = text::trimmed(line);
    if marker.is_prefix_of(l) {
        Some(l.skip(marker.len() as int))
    } else {
        None
    }
}

/// What stands behind a marker.
fn after_marker(line: &str, marker: &str) -> (r: Option<String>)
    ensures
        text::opt_text(r) == behind_marker(line@, marker@),
{
    let l = trim(line);
    if !starts_with(l.as_str(), marker) {
        return None;
    }
    let cs = chars_of(l.as_str());
    let ms = chars_of(marker);
    let rest = slice_text(&cs, ms.len(), cs.len());
    assert(rest@ =~= l@.skip(marker@.len() as int));
    Some(rest)
}

/// The table that a marked line holds, given what is read of its JSON.
pub open spec fn line_table(
    json: Option<Seq<char>>,
    pairs: Option<Seq<(Seq<char>, Seq<char>)>>,
    normalize: bool,
) -> Option<Map<Seq<char>, Seq<char>>> {
    if json is None || pairs is None {
        None
    } else if normalize {
        Some(pairs_table(normal_pairs(pairs->0), pairs->0.len() as int))
    } else {
        Some(pairs_table(pairs->0, pairs->0.len() as int))
    }
}

/// What an optional table says.
pub open spec fn opt_table(o: Option<NameMap>) -> Option<Map<Seq<char>, Seq<char>>> {
    match o {
        Some(m) => Some(m@),
        None => None,
    }
}

/// The table that a line with the recorded versions holds.
pub fn parse_resolved_line(line: &str) -> (r: Option<NameMap>)
    ensures
        r matches Some(m) ==> m.wf(),
        opt_table(r) == (match behind_marker(line@, VERSIONS_MARKER@) {
            Some(json) => line_table(Some(json), json_string_pairs(json), false),
            None => None,
        }),
{
    match after_marker(line, VERSIONS_MARKER) {
        None => None,
        Some(json) => match json_pairs(json.as_str()) {
            None => None,
            Some(pairs) => Some(table_from_pairs(&pairs, false)),
        },
    }
}

/// The table that a line with the versions of everything holds, its names
/// normalised.
pub fn parse_all_versions_line(line: &str) -> (r: Option<NameMap>)
    ensures
        r matches Some(m) ==> m.wf(),
        opt_table(r) == (match behind_marker(line@, ALL_VERSIONS_MARKER@) {
            Some(json) => line_table(Some(json), json_string_pairs(json), true),
            None => None,
        }),
{
    match after_marker(line, ALL_VERSIONS_MARKER) {
        None => None,
        Some(json) => match json_pairs(json.as_str()) {
            None => None,
            Some(pairs) => Some(table_from_pairs(&pairs, true)),
        },
    }
}

/// The last of the first `n` lines that holds a table, as a table.
pub open spec fn last_table(l: Seq<Seq<char>>, all: bool, n: int) -> Option<
    Map<Seq<char>, Seq<char>>,
>
    decreases n,
{
    if n <= 0 {
        None
    } else {
        let marker = if all {
            ALL_VERSIONS_MARKER@
        } else {
            VERSIONS_MARKER@
        };
        let here = match behind_marker(l[n - 1], marker) {
            Some(json) => line_table(Some(json), json_string_pairs(json), all),
            None => None,
        };
        if here is Some {
            here
        } else {
            last_table(l, all, n - 1)
        }
    }
}

/// What is told where no line held the versions of everything.
pub const NO_VERSIONS: &'static str = "入っている版の一覧を読み取れませんでした";

/// The versions that Python was asked for, among the lines that it wrote: those
/// of everything, or only those that are recorded.
pub fn versions_in(lines: &Vec<String>, all: bool) -> (r: Option<NameMap>)
    ensures
        r matches Some(m) ==> m.wf(),
        opt_table(r) == last_table(text::texts(lines@), all, lines@.len() as int),
{
    let ghost l = text::texts(lines@);
    let mut i: usize = lines.len();
    while i > 0
        invariant
            i <= lines@.len(),
            l == text::texts(lines@),
            last_table(l, all, lines@.len() as int) == last_table(l, all, i as int),
        decreases i,
    {
        i -= 1;
        assert(l[i as int] == lines@[i as int]@);
        let here = if all {
            parse_all_versions_line(lines[i].as_str())
        } else {
            parse_resolved_line(lines[i].as_str())
        };
        if here.is_some() {
            return here;
        }
    }
    None
}

/// The file that holds the versions noted before an update.
pub const VERSIONS_SNAPSHOT_FILE: &'static str = "update-versions.json";

/// `serde_json::to_string_pretty` of a table of strings, whose names are given in
/// ascending order: a text from which `serde_json` reads the same entries.
#[verifier::external_body]
fn json_of_pairs(pairs: &Vec<(String, String)>) -> (r: Option<String>)
    requires
        names::ascending(names::first_of(pair_texts(pairs@))),
    ensures
        r is Some && json_string_pairs(r->0@) == Some(pair_texts(pairs@)),
{
    let table: std::collections::BTreeMap<&String, &String> =
        pairs.iter().map(|(name, version)| (name, version)).collect();
    serde_json::to_string_pretty(&table).ok()
}

/// The first `n` pairs are the entries of the table under the given names.
spec fn are_entries(
    p: Seq<(Seq<char>, Seq<char>)>,
    names: Seq<Seq<char>>,
    m: Map<Seq<char>, Seq<char>>,
    n: int,
) -> bool {
    &&& forall|j: int| 0 <= j < n ==> m.contains_key(#[trigger] names[j])
    &&& forall|j: int| 0 <= j < n ==> (#[trigger] p[j]).0 == names[j] && p[j].1 == m[names[j]]
}

/// The entries of a table, in ascending order of their names.
fn entries_of(m: &NameMap) -> (r: Vec<(String, String)>)
    requires
        m.wf(),
    ensures
        names::ascending(names::first_of(pair_texts(r@))),
        pairs_table(pair_texts(r@), r@.len() as int) == m@,
{
    let list = m.names();
    let ghost n = text::texts(list@);
    let mut out: Vec<(String, String)> = Vec::new();
    let mut i: usize = 0;
    while i < list.len()
        invariant
            i <= list@.len(),
            m.wf(),
            n == text::texts(list@),
            forall|k: Seq<char>| #[trigger] n.contains(k) <==> m@.contains_key(k),
            out@.len() == i,
            names::first_of(pair_texts(out@)) == n.take(i as int),
            are_entries(pair_texts(out@), n, m@, i as int),
        decreases list@.len() - i,
    {
        assert(n[i as int] == list@[i as int]@);
        assert(n.contains(n[i as int]));
        let ghost before = pair_texts(out@);
        match m.get(list[i].as_str()) {
            Some(version) => {
                out.push((owned(list[i].as_str()), owned(version.as_str())));
                assert(pair_texts(out@) =~= before.push((n[i as int], m@[n[i as int]])));
                assert(are_entries(pair_texts(out@), n, m@, i + 1));
            },
            None => {
                assert(false);
            },
        }
        assert(names::first_of(pair_texts(out@)) =~= n.take(i + 1));
        i += 1;
    }
    proof {
        let p = pair_texts(out@);
        assert(n.take(n.len() as int) =~= n);
        lemma_pairs_table(p, n, m@, p.len() as int);
        assert(pairs_table(p, p.len() as int).dom() =~= m@.dom()) by {
            assert forall|k: Seq<char>| m@.contains_key(k) implies pairs_table(
                p,
                p.len() as int,
            ).contains_key(k) by {
                assert(n.contains(k));
            }
        }
        assert(pairs_table(p, p.len() as int) =~= m@);
    }
    out
}

proof fn lemma_pairs_table(
    p: Seq<(Seq<char>, Seq<char>)>,
    n: Seq<Seq<char>>,
    m: Map<Seq<char>, Seq<char>>,
    k: int,
)
    requires
        0 <= k <= p.len(),
        p.len() == n.len(),
        are_entries(p, n, m, p.len() as int),
    ensures
        forall|x: Seq<char>| #[trigger]
            pairs_table(p, k).contains_key(x) <==> n.take(k).contains(x),
        forall|x: Seq<char>| #[trigger]
            pairs_table(p, k).contains_key(x) ==> m.contains_key(x),
        forall|x: Seq<char>|
            pairs_table(p, k).contains_key(x) ==> #[trigger] pairs_table(p, k)[x] == m[x],
    decreases k,
{
    if k == 0 {
        assert(pairs_table(p, k) =~= Map::empty());
    } else {
        lemma_pairs_table(p, n, m, k - 1);
        assert(p[k - 1].0 == n[k - 1] && p[k - 1].1 == m[n[k - 1]]);
        let t = pairs_table(p, k - 1);
        assert(pairs_table(p, k) == t.insert(n[k - 1], m[n[k - 1]]));
        assert forall|x: Seq<char>| #[trigger] pairs_table(p, k).contains_key(x) implies m.contains_key(
            x,
        ) by {
            if x != n[k - 1] {
                assert(t.contains_key(x));
            }
        }
        assert forall|x: Seq<char>| pairs_table(p, k).contains_key(x) implies #[trigger] pairs_table(
            p,
            k,
        )[x] == m[x] by {
            if x != n[k - 1] {
                assert(t.contains_key(x));
                assert(t[x] == m[x]);
            }
        }
        assert forall|x: Seq<char>| #[trigger] pairs_table(p, k).contains_key(x) <==> n.take(
            k,
        ).contains(x) by {
            let whole = n.take(k);
            let front = n.take(k - 1);
            assert(t.contains_key(x) <==> front.contains(x));
            assert(whole =~= front.push(n[k - 1]));
            if whole.contains(x) {
                let j = choose|j: int| 0 <= j < whole.len() && whole[j] == x;
                if j < k - 1 {
                    assert(front[j] == x);
                }
            }
            if front.contains(x) {
                let j = choose|j: int| 0 <= j < front.len() && front[j] == x;
                assert(whole[j] == x);
            }
            if x == n[k - 1] {
                assert(whole[k - 1] == x);
            }
        }
    }
}

/// Reads the note of the versions; nothing where it is no such note.
pub fn read_versions_snapshot(note: &str) -> (r: Option<NameMap>)
    ensures
        r matches Some(m) ==> m.wf(),
        opt_table(r) == line_table(Some(note@), json_string_pairs(note@), false),
{
    match json_pairs(note) {
        None => None,
        Some(pairs) => Some(table_from_pairs(&pairs, false)),
    }
}

/// Writes the note of the versions: reading it gives the same versions back.
pub fn write_versions_snapshot(versions: &NameMap) -> (r: Option<String>)
    requires
        versions.wf(),
    ensures
        r is Some,
        line_table(Some(r->0@), json_string_pairs(r->0@), false) == Some(versions@),
{
    let pairs = entries_of(versions);
    assert(pairs@.len() == pair_texts(pairs@).len());
    json_of_pairs(&pairs)
}

/// The names as a list of Python.
pub open spec fn python_list(s: Seq<Seq<char>>) -> Seq<char> {
    "["@ + text::joined(
        Seq::new(s.len(), |i: int| "\""@ + s[i] + "\""@),
        ", "@,
        s.len() as int,
    ) + "]"@
}

pub const RESOLVED_SCRIPT_HEAD: &'static str =
    "import json,importlib.metadata as m\nout={}\nfor n in ";

pub const RESOLVED_SCRIPT_TAIL: &'static str =
    ":\n    try: out[n]=m.version(n)\n    except Exception: pass\nprint(\"UGG_RESOLVED_VERSIONS \"+json.dumps(out,sort_keys=True))";

/// What Python is asked for the versions of everything with.
pub const ALL_VERSIONS_SCRIPT: &'static str =
    "import json,importlib.metadata as m\nout={}\nfor d in m.distributions():\n    n=d.metadata.get('Name')\n    if n: out[n]=d.version\nprint(\"UGG_ALL_VERSIONS \"+json.dumps(out,sort_keys=True))";

/// What Python is asked for the versions that are recorded with.
pub fn resolved_versions_script() -> (r: String)
    ensures
        r@ == RESOLVED_SCRIPT_HEAD@ + python_list(pins::recorded_names()) + RESOLVED_SCRIPT_TAIL@,
{
    let list = recorded_distributions();
    let ghost n = text::texts(list@);
    let ghost all = Seq::new(n.len(), |i: int| "\""@ + n[i] + "\""@);
    let mut quoted: Vec<String> = Vec::new();
    let mut i: usize = 0;
    while i < list.len()
        invariant
            i <= list@.len(),
            n == text::texts(list@),
            all == Seq::new(n.len(), |k: int| "\""@ + n[k] + "\""@),
            quoted@.len() == i,
            forall|k: int| 0 <= k < i ==> (#[trigger] quoted@[k])@ == all[k],
        decreases list@.len() - i,
    {
        assert(n[i as int] == list@[i as int]@);
        let mut q = owned("\"");
        push_text(&mut q, list[i].as_str());
        push_text(&mut q, "\"");
        quoted.push(q);
        i += 1;
    }
    assert(text::texts(quoted@) =~= all);
    let mut out = owned(RESOLVED_SCRIPT_HEAD);
    push_text(&mut out, "[");
    push_text(&mut out, text::join(&quoted, ", ").as_str());
    push_text(&mut out, "]");
    push_text(&mut out, RESOLVED_SCRIPT_TAIL);
    assert(out@ =~= RESOLVED_SCRIPT_HEAD@ + python_list(n) + RESOLVED_SCRIPT_TAIL@);
    out
}

/// A distribution that came from an archive. Its version cannot be asked for
/// by name; it is brought back from where it was set aside.
pub open spec fn is_archived(name: Seq<char>) -> bool {
    name == "silentcipher"@ || name == "dacvae"@ || name == "irodori-tts"@
}

/// Whether the distribution came from an archive.
fn from_archive(name: &str) -> (r: bool)
    ensures
        r == is_archived(name@),
{
    text::same(name, "silentcipher") || text::same(name, "dacvae") || text::same(
        name,
        "irodori-tts",
    )
}

/// The distribution is not, or no longer, what it was.
pub open spec fn has_changed(
    before: Map<Seq<char>, Seq<char>>,
    after: Map<Seq<char>, Seq<char>>,
    k: Seq<char>,
) -> bool {
    before.contains_key(k) && !is_archived(k) && names::at(after, k) != Some(before[k])
}

/// Those of the names from the `i`-th on that have changed, with the version
/// that each had.
pub open spec fn changed_from(
    n: Seq<Seq<char>>,
    before: Map<Seq<char>, Seq<char>>,
    after: Map<Seq<char>, Seq<char>>,
    i: int,
) -> Seq<(Seq<char>, Seq<char>)>
    decreases n.len() - i,
    when 0 <= i <= n.len()
{
    if i == n.len() {
        Seq::empty()
    } else if has_changed(before, after, n[i]) {
        seq![(n[i], before[n[i]])] + changed_from(n, before, after, i + 1)
    } else {
        changed_from(n, before, after, i + 1)
    }
}

/// What has to be brought back: each distribution that is not, or no longer,
/// what it was, with its version, in ascending order of the names.
pub open spec fn to_restore(
    before: Map<Seq<char>, Seq<char>>,
    after: Map<Seq<char>, Seq<char>>,
) -> Seq<(Seq<char>, Seq<char>)> {
    changed_from(names::sorted_names(before), before, after, 0)
}

/// What has to be brought back to the versions of before. What came from an
/// archive is not among it, nor is what is new.
pub fn versions_to_restore(before: &NameMap, after: &NameMap) -> (r: Vec<(String, String)>)
    requires
        before.wf(),
        after.wf(),
    ensures
        pair_texts(r@) == to_restore(before@, after@),
{
    let list = before.names();
    let ghost n = names::sorted_names(before@);
    let mut out: Vec<(String, String)> = Vec::new();
    let mut i: usize = 0;
    assert(pair_texts(out@) + changed_from(n, before@, after@, 0) =~= changed_from(
        n,
        before@,
        after@,
        0,
    ));
    while i < list.len()
        invariant
            i <= list@.len(),
            before.wf(),
            after.wf(),
            n == text::texts(list@),
            forall|k: Seq<char>| #[trigger] n.contains(k) <==> before@.contains_key(k),
            pair_texts(out@) + changed_from(n, before@, after@, i as int) == to_restore(
                before@,
                after@,
            ),
            to_restore(before@, after@) == changed_from(n, before@, after@, 0),
        decreases list@.len() - i,
    {
        let ghost prior = pair_texts(out@);
        let ghost rest = changed_from(n, before@, after@, i + 1);
        let name = list[i].as_str();
        assert(n[i as int] == name@);
        assert(n.contains(name@));
        match before.get(name) {
            Some(version) => {
                let kept = match after.get(name) {
                    Some(v) => text::same(v.as_str(), version.as_str()),
                    None => false,
                };
                if !kept && !from_archive(name) {
                    out.push((owned(name), owned(version.as_str())));
                    assert(pair_texts(out@) =~= prior.push((name@, version@)));
                    assert(pair_texts(out@) + rest =~= prior + (seq![(name@, version@)] + rest));
                }
            },
            None => {},
        }
        i += 1;
    }
    assert(pair_texts(out@) + Seq::<(Seq<char>, Seq<char>)>::empty() =~= pair_texts(out@));
    out
}

proof fn lemma_changed_from(
    n: Seq<Seq<char>>,
    before: Map<Seq<char>, Seq<char>>,
    after: Map<Seq<char>, Seq<char>>,
    i: int,
)
    requires
        0 <= i <= n.len(),
    ensures
        changed_from(n, before, after, i).len() == 0 <==> forall|j: int|
            i <= j < n.len() ==> !has_changed(before, after, #[trigger] n[j]),
    decreases n.len() - i,
{
    if i < n.len() {
        lemma_changed_from(n, before, after, i + 1);
        if changed_from(n, before, after, i).len() == 0 {
            assert forall|j: int| i <= j < n.len() implies !has_changed(
                before,
                after,
                #[trigger] n[j],
            ) by {
                if j > i {
                    assert(changed_from(n, before, after, i + 1).len() == 0);
                }
            }
        } else if !has_changed(before, after, n[i]) {
            let j = choose|j: int| i + 1 <= j < n.len() && has_changed(before, after, #[trigger] n[j]);
            assert(has_changed(before, after, n[j]));
        } else {
            assert(has_changed(before, after, n[i]));
        }
    }
}

/// There is nothing to be brought back exactly where every distribution that
/// did not come from an archive is there in the version that it had.
pub proof fn nothing_to_restore_iff_unchanged(n: Seq<Seq<char>>, before: Map<Seq<char>, Seq<char>>, after: Map<Seq<char>, Seq<char>>)
    requires
        names::is_names_of(n, before),
    ensures
        to_restore(before, after).len() == 0 <==> forall|k: Seq<char>|
            before.contains_key(k) && !is_archived(k) ==> #[trigger] names::at(after, k) == Some(
                before[k],
            ),
{
    names::lemma_sorted_names(n, before);
    lemma_changed_from(n, before, after, 0);
    if to_restore(before, after).len() == 0 {
        assert forall|k: Seq<char>| before.contains_key(k) && !is_archived(k) implies
            #[trigger] names::at(after, k) == Some(before[k]) by {
            assert(n.contains(k));
            let j = choose|j: int| 0 <= j < n.len() && n[j] == k;
            assert(!has_changed(before, after, n[j]));
        }
    } else {
        let j = choose|j: int| 0 <= j < n.len() && has_changed(before, after, #[trigger] n[j]);
        assert(n.contains(n[j]));
        assert(names::at(after, n[j]) != Some(before[n[j]]));
    }
}

/// The distributions that are new, in ascending order.
pub fn added_since(before: &NameMap, after: &NameMap) -> (r: Vec<String>)
    requires
        before.wf(),
        after.wf(),
    ensures
        names::ascending(text::texts(r@)),
        forall|k: Seq<char>| #[trigger]
            text::texts(r@).contains(k) <==> after@.contains_key(k) && !before@.contains_key(k),
{
    let list = after.names();
    let ghost n = text::texts(list@);
    let mut out: Vec<String> = Vec::new();
    let mut i: usize = 0;
    assert(text::texts(out@) =~= Seq::<Seq<char>>::empty());
    while i < list.len()
        invariant
            i <= list@.len(),
            before.wf(),
            n == text::texts(list@),
            forall|k: Seq<char>| #[trigger] n.contains(k) <==> after@.contains_key(k),
            names::ascending(text::texts(out@)),
            forall|k: Seq<char>| #[trigger]
                text::texts(out@).contains(k) <==> (exists|j: int|
                    0 <= j < i && #[trigger] n[j] == k) && !before@.contains_key(k),
        decreases list@.len() - i,
    {
        assert(n[i as int] == list@[i as int]@);
        if !before.contains_key(list[i].as_str()) {
            names::insert_name(&mut out, list[i].as_str());
        }
        i += 1;
    }
    proof {
        assert forall|k: Seq<char>| #[trigger]
            text::texts(out@).contains(k) <==> after@.contains_key(k) && !before@.contains_key(
                k,
            ) by {
            if after@.contains_key(k) {
                assert(n.contains(k));
                let j = choose|j: int| 0 <= j < n.len() && n[j] == k;
                assert(n[j] == k);
            }
            if text::texts(out@).contains(k) {
                let j = choose|j: int| 0 <= j < n.len() && #[trigger] n[j] == k;
                assert(n.contains(k));
            }
        }
    }
    out
}

/// A version asked for exactly.
pub open spec fn exact_spec(p: (Seq<char>, Seq<char>)) -> Seq<char> {
    p.0 + "=="@ + p.1
}

/// A version asked for exactly.
fn exactly(name: &str, version: &str) -> (r: String)
    ensures
        r@ == exact_spec((name@, version@)),
{
    let mut out = owned(name);
    push_text(&mut out, "==");
    push_text(&mut out, version);
    out
}

/// Those of the first `n` that come from the CUDA index, or those that do not,
/// each asked for exactly.
pub open spec fn specs_by_index(p: Seq<(Seq<char>, Seq<char>)>, torch: bool, n: int) -> Seq<
    Seq<char>,
>
    decreases n,
{
    if n <= 0 {
        Seq::empty()
    } else if pins::is_torch(p[n - 1].0) == torch {
        specs_by_index(p, torch, n - 1).push(exact_spec(p[n - 1]))
    } else {
        specs_by_index(p, torch, n - 1)
    }
}

/// Parts what comes from the CUDA index of PyTorch from what does not, in
/// their order: the two cannot be asked for together.
pub fn split_by_index(items: &Vec<(String, String)>) -> (r: (Vec<String>, Vec<String>))
    ensures
        text::texts(r.0@) == specs_by_index(pair_texts(items@), true, items@.len() as int),
        text::texts(r.1@) == specs_by_index(pair_texts(items@), false, items@.len() as int),
{
    let ghost p = pair_texts(items@);
    let mut torch: Vec<String> = Vec::new();
    let mut other: Vec<String> = Vec::new();
    let mut i: usize = 0;
    assert(text::texts(torch@) =~= Seq::<Seq<char>>::empty());
    assert(text::texts(other@) =~= Seq::<Seq<char>>::empty());
    while i < items.len()
        invariant
            i <= items@.len(),
            p == pair_texts(items@),
            text::texts(torch@) == specs_by_index(p, true, i as int),
            text::texts(other@) == specs_by_index(p, false, i as int),
        decreases items@.len() - i,
    {
        let ghost a = text::texts(torch@);
        let ghost b = text::texts(other@);
        assert(p[i as int] == (items@[i as int].0@, items@[i as int].1@));
        let spec = exactly(items[i].0.as_str(), items[i].1.as_str());
        if needs_torch_index(items[i].0.as_str()) {
            torch.push(spec);
            assert(text::texts(torch@) =~= a.push(spec@));
        } else {
            other.push(spec);
            assert(text::texts(other@) =~= b.push(spec@));
        }
        i += 1;
    }
    (torch, other)
}

/// The version is of a build with CUDA.
pub open spec fn is_cuda(v: Option<Seq<char>>) -> bool {
    v is Some && text::has_text(v->0, "+cu"@)
}

/// What is said where PyTorch with CUDA is no longer there; nothing where it
/// never was, or still is.
pub open spec fn torch_lost(before: Option<Seq<char>>, after: Option<Seq<char>>) -> Option<
    Seq<char>,
> {
    if !is_cuda(before) || is_cuda(after) {
        None
    } else {
        match after {
            Some(v) => Some("torch が CUDA 版から CPU 版（"@ + v + "）へ入れ替わりました"@),
            None => Some("torch が消えました"@),
        }
    }
}

/// Whether PyTorch with CUDA was replaced by one without, or is gone.
pub fn cuda_torch_replaced(before: &NameMap, after: &NameMap) -> (r: Option<String>)
    requires
        before.wf(),
        after.wf(),
    ensures
        text::opt_text(r) == torch_lost(
            names::at(before@, "torch"@),
            names::at(after@, "torch"@),
        ),
{
    let was_cuda = match before.get("torch") {
        Some(v) => contains_text(v.as_str(), "+cu"),
        None => false,
    };
    if !was_cuda {
        return None;
    }
    match after.get("torch") {
        Some(v) => {
            if contains_text(v.as_str(), "+cu") {
                return None;
            }
            let mut out = owned("torch が CUDA 版から CPU 版（");
            push_text(&mut out, v.as_str());
            push_text(&mut out, "）へ入れ替わりました");
            Some(out)
        },
        None => Some(owned("torch が消えました")),
    }
}

/// The normalised names of what comes from the CUDA index, of the first `n`
/// that are installed, each held to its version.
pub open spec fn torch_held(v: Map<Seq<char>, Seq<char>>, n: int) -> Seq<Seq<char>>
    decreases n,
{
    if n <= 0 {
        Seq::empty()
    } else {
        let name = normal_name(pins::req_name(pins::torch_specs()[n - 1]));
        if v.contains_key(name) {
            torch_held(v, n - 1).push(exact_spec((name, v[name])))
        } else {
            torch_held(v, n - 1)
        }
    }
}

/// The constraints that hold PyTorch to the versions that are installed, while
/// something else is installed from an index that has it without CUDA only.
pub fn torch_constraints(versions: &NameMap) -> (r: Vec<String>)
    requires
        versions.wf(),
    ensures
        text::texts(r@) == torch_held(versions@, pins::torch_specs().len() as int),
{
    let specs = torch_packages();
    let mut out: Vec<String> = Vec::new();
    let mut i: usize = 0;
    assert(specs@.len() == text::str_texts(specs@).len());
    assert(text::texts(out@) =~= Seq::<Seq<char>>::empty());
    while i < specs.len()
        invariant
            i <= specs@.len(),
            specs@.len() == pins::torch_specs().len(),
            versions.wf(),
            text::str_texts(specs@) == pins::torch_specs(),
            text::texts(out@) == torch_held(versions@, i as int),
        decreases specs@.len() - i,
    {
        let ghost prior = text::texts(out@);
        assert(text::str_texts(specs@)[i as int] == specs@[i as int]@);
        let name = normalize_dist_name(requirement_name(specs[i]).as_str());
        match versions.get(name.as_str()) {
            Some(v) => {
                let spec = exactly(name.as_str(), v.as_str());
                out.push(spec);
                assert(text::texts(out@) =~= prior.push(spec@));
            },
            None => {},
        }
        i += 1;
    }
    out
}

/// What could not be brought back, as it is told.
pub open spec fn left_text(p: (Seq<char>, Seq<char>), now: Option<Seq<char>>) -> Seq<char> {
    match now {
        Some(v) => exact_spec(p) + "（いまは "@ + v + "）"@,
        None => exact_spec(p) + "（いまは入っていない）"@,
    }
}

/// What could not be brought back to the versions of before, as it is told.
pub fn left_behind(before: &NameMap, now: &NameMap) -> (r: Vec<String>)
    requires
        before.wf(),
        now.wf(),
    ensures
        r@.len() == to_restore(before@, now@).len(),
        forall|i: int|
            0 <= i < r@.len() ==> (#[trigger] r@[i])@ == left_text(
                to_restore(before@, now@)[i],
                names::at(now@, to_restore(before@, now@)[i].0),
            ),
{
    let rest = versions_to_restore(before, now);
    let ghost p = to_restore(before@, now@);
    let mut out: Vec<String> = Vec::new();
    let mut i: usize = 0;
    while i < rest.len()
        invariant
            i <= rest@.len(),
            now.wf(),
            p == pair_texts(rest@),
            out@.len() == i,
            forall|j: int|
                0 <= j < i ==> (#[trigger] out@[j])@ == left_text(p[j], names::at(now@, p[j].0)),
        decreases rest@.len() - i,
    {
        assert(p[i as int] == (rest@[i as int].0@, rest@[i as int].1@));
        let mut line = exactly(rest[i].0.as_str(), rest[i].1.as_str());
        match now.get(rest[i].0.as_str()) {
            Some(v) => {
                push_text(&mut line, "（いまは ");
                push_text(&mut line, v.as_str());
                push_text(&mut line, "）");
            },
            None => {
                push_text(&mut line, "（いまは入っていない）");
            },
        }
        out.push(line);
        i += 1;
    }
    out
}

/// What came of importing each module: nothing, or why it failed.
pub open spec fn import_loss(name: Seq<char>, after: Option<Option<Seq<char>>>) -> Option<Seq<char>> {
    match after {
        Some(None) => None,
        Some(Some(why)) => Some(name + ": "@ + why),
        None => Some(name),
    }
}

/// Whether a module can be imported: its name, and why not where it cannot.
#[derive(Debug, PartialEq, Eq)]
pub struct ImportCheck {
    pub module: String,
    pub failure: Option<String>,
}

/// The modules that were checked.
pub open spec fn modules_of(c: Seq<ImportCheck>) -> Seq<Seq<char>> {
    Seq::new(c.len(), |i: int| c[i].module@)
}

/// What holds of the checks of one report: their modules ascend, so that none
/// comes twice.
pub open spec fn is_report(c: Seq<ImportCheck>) -> bool {
    names::ascending(modules_of(c))
}

/// What the first check of that module, from the `i`-th on, says.
pub open spec fn checked(c: Seq<ImportCheck>, name: Seq<char>, i: int) -> Option<
    Option<Seq<char>>,
>
    decreases c.len() - i,
    when 0 <= i <= c.len()
{
    if i == c.len() {
        None
    } else if c[i].module@ == name {
        Some(text::opt_text(c[i].failure))
    } else {
        checked(c, name, i + 1)
    }
}

/// What the checks from the `i`-th on found to work before and not after.
pub open spec fn losses_from(before: Seq<ImportCheck>, after: Seq<ImportCheck>, i: int) -> Seq<
    Seq<char>,
>
    decreases before.len() - i,
    when 0 <= i <= before.len()
{
    if i == before.len() {
        Seq::empty()
    } else {
        let rest = losses_from(before, after, i + 1);
        let loss = import_loss(before[i].module@, checked(after, before[i].module@, 0));
        if before[i].failure is None && loss is Some {
            seq![loss->0] + rest
        } else {
            rest
        }
    }
}

proof fn lemma_checked(c: Seq<ImportCheck>, i: int, k: int)
    requires
        is_report(c),
        0 <= k <= i < c.len(),
    ensures
        checked(c, c[i].module@, k) == Some(text::opt_text(c[i].failure)),
    decreases i - k,
{
    if k < i {
        let m = modules_of(c);
        assert(text::precedes(m[k], m[i]));
        text::lemma_precedes_irreflexive(m[i]);
        lemma_checked(c, i, k + 1);
    }
}

/// Every check of a report counts: what the report says of its module is what
/// that check found.
pub proof fn every_check_of_a_report_counts(c: Seq<ImportCheck>, i: int)
    requires
        is_report(c),
        0 <= i < c.len(),
    ensures
        checked(c, c[i].module@, 0) == Some(text::opt_text(c[i].failure)),
{
    lemma_checked(c, i, 0);
}

/// What a check says of a module.
fn find_check<'a>(checks: &'a Vec<ImportCheck>, name: &str) -> (r: Option<&'a ImportCheck>)
    ensures
        (match r {
            Some(c) => Some(text::opt_text(c.failure)),
            None => None,
        }) == checked(checks@, name@, 0),
{
    let mut i: usize = 0;
    while i < checks.len()
        invariant
            i <= checks@.len(),
            checked(checks@, name@, 0) == checked(checks@, name@, i as int),
        decreases checks@.len() - i,
    {
        if text::same(checks[i].module.as_str(), name) {
            return Some(&checks[i]);
        }
        i += 1;
    }
    None
}

/// What could be imported before and cannot be now. What could not be imported
/// before does not count: the update is not to blame for it.
pub fn import_regressions(before: &Vec<ImportCheck>, after: &Vec<ImportCheck>) -> (r: Vec<String>)
    requires
        is_report(before@),
        is_report(after@),
    ensures
        text::texts(r@) == losses_from(before@, after@, 0),
{
    let mut out: Vec<String> = Vec::new();
    let mut i: usize = 0;
    assert(text::texts(out@) + losses_from(before@, after@, 0) =~= losses_from(
        before@,
        after@,
        0,
    ));
    while i < before.len()
        invariant
            i <= before@.len(),
            text::texts(out@) + losses_from(before@, after@, i as int) == losses_from(
                before@,
                after@,
                0,
            ),
        decreases before@.len() - i,
    {
        let ghost prior = text::texts(out@);
        let ghost rest = losses_from(before@, after@, i + 1);
        if before[i].failure.is_none() {
            let name = before[i].module.as_str();
            match find_check(after, name) {
                Some(c) => match &c.failure {
                    None => {},
                    Some(why) => {
                        let mut line = owned(name);
                        push_text(&mut line, ": ");
                        push_text(&mut line, why.as_str());
                        out.push(line);
                        assert(text::texts(out@) =~= prior.push(line@));
                        assert(text::texts(out@) + rest =~= prior + (seq![line@] + rest));
                    },
                },
                None => {
                    out.push(owned(name));
                    assert(text::texts(out@) =~= prior.push(name@));
                    assert(text::texts(out@) + rest =~= prior + (seq![name@] + rest));
                },
            }
        }
        i += 1;
    }
    assert(text::texts(out@) + Seq::<Seq<char>>::empty() =~= text::texts(out@));
    out
}

/// The modules whose import is tried.
pub open spec fn module_names() -> Seq<Seq<char>> {
    seq!["dacvae"@, "irodori_tts"@, "silentcipher"@]
}

proof fn lemma_modules_ascend()
    ensures
        names::ascending(module_names()),
{
    reveal_strlit("dacvae");
    reveal_strlit("irodori_tts");
    reveal_strlit("silentcipher");
    let m = module_names();
    assert(m[0][0] == 'd' && m[1][0] == 'i' && m[2][0] == 's');
    assert(text::precedes(m[0], m[1]));
    assert(text::precedes(m[0], m[2]));
    assert(text::precedes(m[1], m[2]));
}

/// The modules whose import is tried before and after something is installed.
pub fn runtime_modules() -> (r: Vec<&'static str>)
    ensures
        text::str_texts(r@) == module_names(),
        names::ascending(text::str_texts(r@)),
{
    let r = vec!["dacvae", "irodori_tts", "silentcipher"];
    assert(text::str_texts(r@) =~= module_names());
    proof {
        lemma_modules_ascend();
    }
    r
}

/// The report of trying the modules: each with why it could not be imported,
/// where it could not, given in the order of the modules.
pub fn import_report(failures: Vec<Option<String>>) -> (r: Vec<ImportCheck>)
    requires
        failures@.len() == module_names().len(),
    ensures
        is_report(r@),
        modules_of(r@) == module_names(),
        forall|i: int|
            0 <= i < r@.len() ==> text::opt_text((#[trigger] r@[i]).failure) == text::opt_text(
                failures@[i],
            ),
{
    let modules = runtime_modules();
    let mut out: Vec<ImportCheck> = Vec::new();
    let mut i: usize = 0;
    while i < modules.len()
        invariant
            i <= modules@.len(),
            text::str_texts(modules@) == module_names(),
            failures@.len() == modules@.len(),
            out@.len() == i,
            forall|k: int| 0 <= k < i ==> (#[trigger] out@[k]).module@ == modules@[k]@,
            forall|k: int|
                0 <= k < i ==> text::opt_text((#[trigger] out@[k]).failure) == text::opt_text(
                    failures@[k],
                ),
        decreases modules@.len() - i,
    {
        let failure = match &failures[i] {
            Some(why) => Some(owned(why.as_str())),
            None => None,
        };
        out.push(ImportCheck { module: owned(modules[i]), failure });
        i += 1;
    }
    proof {
        let m = modules_of(out@);
        assert forall|k: int| 0 <= k < m.len() implies #[trigger] m[k] == module_names()[k] by {
            assert(m[k] == out@[k].module@);
            assert(text::str_texts(modules@)[k] == modules@[k]@);
        }
        assert(text::str_texts(modules@).len() == modules@.len());
        assert(m =~= module_names());
        lemma_modules_ascend();
    }
    out
}

/// What Python is given to try an import.
pub fn import_code(module: &str) -> (r: String)
    ensures
        r@ == "import "@ + module@,
{
    let mut out = owned("import ");
    push_text(&mut out, module);
    out
}

/// A table of pairs holds exactly the names of the pairs; where a name comes more
/// than once, the last one counts.
pub proof fn the_last_pair_of_a_name_counts(p: Seq<(Seq<char>, Seq<char>)>, n: int, k: int)
    requires
        0 <= n <= p.len(),
    ensures
        forall|x: Seq<char>| #[trigger]
            pairs_table(p, n).contains_key(x) <==> exists|i: int| 0 <= i < n && (#[trigger] p[i]).0 == x,
        0 <= k < n && (forall|i: int| k < i < n ==> (#[trigger] p[i]).0 != p[k].0) ==> pairs_table(
            p,
            n,
        )[p[k].0] == p[k].1,
    decreases n,
{
    if n > 0 {
        the_last_pair_of_a_name_counts(p, n - 1, k);
        assert forall|x: Seq<char>| #[trigger]
            pairs_table(p, n).contains_key(x) <==> exists|i: int|
                0 <= i < n && (#[trigger] p[i]).0 == x by {
            if pairs_table(p, n).contains_key(x) {
                if pairs_table(p, n - 1).contains_key(x) {
                    let i = choose|i: int| 0 <= i < n - 1 && (#[trigger] p[i]).0 == x;
                    assert(p[i].0 == x);
                } else {
                    assert(p[n - 1].0 == x);
                }
            }
            if exists|i: int| 0 <= i < n && (#[trigger] p[i]).0 == x {
                let i = choose|i: int| 0 <= i < n && (#[trigger] p[i]).0 == x;
                if i < n - 1 {
                    assert(pairs_table(p, n - 1).contains_key(x));
                }
            }
        }
        if 0 <= k < n - 1 && (forall|i: int| k < i < n ==> (#[trigger] p[i]).0 != p[k].0) {
            assert(p[n - 1].0 != p[k].0);
        }
    }
}

/// What a line holds of the versions.
pub open spec fn table_in(line: Seq<char>, all: bool) -> Option<Map<Seq<char>, Seq<char>>> {
    match behind_marker(
        line,
        if all {
            "UGG_ALL_VERSIONS "@
        } else {
            "UGG_RESOLVED_VERSIONS "@
        },
    ) {
        Some(json) => line_table(Some(json), json_string_pairs(json), all),
        None => None,
    }
}

/// Of the lines that hold the versions the last one counts; where none does, there
/// are none.
pub proof fn the_last_versions_count(l: Seq<Seq<char>>, all: bool, n: int, k: int)
    requires
        0 <= n <= l.len(),
    ensures
        0 <= k < n && table_in(l[k], all) is Some && (forall|i: int|
            k < i < n ==> table_in(#[trigger] l[i], all) is None) ==> last_table(l, all, n)
            == table_in(l[k], all),
        (forall|i: int| 0 <= i < n ==> table_in(#[trigger] l[i], all) is None) ==> last_table(
            l,
            all,
            n,
        ) is None,
    decreases n,
{
    if n > 0 {
        the_last_versions_count(l, all, n - 1, k);
        if 0 <= k < n - 1 && (forall|i: int| k < i < n ==> table_in(#[trigger] l[i], all) is None) {
            assert(table_in(l[n - 1], all) is None);
        }
        if forall|i: int| 0 <= i < n ==> table_in(#[trigger] l[i], all) is None {
            assert(table_in(l[n - 1], all) is None);
        }
    }
}

proof fn lemma_changed(
    n: Seq<Seq<char>>,
    before: Map<Seq<char>, Seq<char>>,
    after: Map<Seq<char>, Seq<char>>,
    i: int,
)
    requires
        0 <= i <= n.len(),
    ensures
        changed_from(n, before, after, i) == n.skip(i).filter(
            |k: Seq<char>| has_changed(before, after, k),
        ).map_values(|k: Seq<char>| (k, before[k])),
    decreases n.len() - i,
{
    let f = |k: Seq<char>| has_changed(before, after, k);
    let g = |k: Seq<char>| (k, before[k]);
    if i == n.len() {
        reveal(Seq::filter);
        assert(n.skip(i) =~= Seq::<Seq<char>>::empty());
        assert(changed_from(n, before, after, i) =~= n.skip(i).filter(f).map_values(g));
    } else {
        lemma_changed(n, before, after, i + 1);
        assert(n.skip(i) =~= seq![n[i]] + n.skip(i + 1));
        Seq::filter_distributes_over_add(seq![n[i]], n.skip(i + 1), f);
        lemma_filter_one(n[i], f);
        let rest = n.skip(i + 1).filter(f);
        assert((seq![n[i]] + rest).map_values(g) =~= seq![g(n[i])] + rest.map_values(g));
        assert((Seq::<Seq<char>>::empty() + rest).map_values(g) =~= rest.map_values(g));
    }
}

proof fn lemma_filter_one(x: Seq<char>, f: spec_fn(Seq<char>) -> bool)
    ensures
        seq![x].filter(f) == (if f(x) {
            seq![x]
        } else {
            Seq::empty()
        }),
{
    reveal(Seq::filter);
    assert(seq![x].drop_last() =~= Seq::<Seq<char>>::empty());
    assert(Seq::<Seq<char>>::empty().filter(f) =~= Seq::<Seq<char>>::empty());
    assert(seq![x].last() == x);
    assert(seq![x].filter(f) =~= (if f(x) {
        seq![x]
    } else {
        Seq::empty()
    }));
}

/// Everything that is no longer in the version noted is brought back to that version,
/// each once and in ascending order: what has another version now and what is gone;
/// only what comes from an archive is not.
pub proof fn everything_that_changed_is_restored(
    n: Seq<Seq<char>>,
    before: Map<Seq<char>, Seq<char>>,
    after: Map<Seq<char>, Seq<char>>,
)
    requires
        names::is_names_of(n, before),
    ensures
        to_restore(before, after) == n.filter(
            |k: Seq<char>|
                k != "silentcipher"@ && k != "dacvae"@ && k != "irodori-tts"@ && !(
                after.contains_key(k) && after[k] == before[k]),
        ).map_values(|k: Seq<char>| (k, before[k])),
{
    names::lemma_sorted_names(n, before);
    lemma_changed(n, before, after, 0);
    assert(n.skip(0) =~= n);
    let f = |k: Seq<char>| has_changed(before, after, k);
    let h = |k: Seq<char>|
        k != "silentcipher"@ && k != "dacvae"@ && k != "irodori-tts"@ && !(after.contains_key(k)
            && after[k] == before[k]);
    assert forall|i: int| 0 <= i < n.len() implies f(#[trigger] n[i]) == h(n[i]) by {
        assert(n.contains(n[i]));
    }
    lemma_filter_same(n, f, h);
}

proof fn lemma_filter_same(
    n: Seq<Seq<char>>,
    f: spec_fn(Seq<char>) -> bool,
    h: spec_fn(Seq<char>) -> bool,
)
    requires
        forall|i: int| 0 <= i < n.len() ==> f(#[trigger] n[i]) == h(n[i]),
    ensures
        n.filter(f) == n.filter(h),
    decreases n.len(),
{
    reveal(Seq::filter);
    if n.len() > 0 {
        let d = n.drop_last();
        assert forall|i: int| 0 <= i < d.len() implies f(#[trigger] d[i]) == h(d[i]) by {
            assert(d[i] == n[i]);
        }
        lemma_filter_same(d, f, h);
        assert(f(n[n.len() - 1]) == h(n[n.len() - 1]));
    }
}

/// What is brought back is parted by where it comes from, all of it and in its
/// order, each to exactly its version.
pub proof fn everything_restored_has_its_index(p: Seq<(Seq<char>, Seq<char>)>, torch: bool, n: int)
    requires
        0 <= n <= p.len(),
    ensures
        specs_by_index(p, torch, n) == p.take(n).filter(
            |x: (Seq<char>, Seq<char>)| pins::is_torch(x.0) == torch,
        ).map_values(|x: (Seq<char>, Seq<char>)| x.0 + "=="@ + x.1),
    decreases n,
{
    reveal(Seq::filter);
    let f = |x: (Seq<char>, Seq<char>)| pins::is_torch(x.0) == torch;
    let g = |x: (Seq<char>, Seq<char>)| x.0 + "=="@ + x.1;
    if n > 0 {
        everything_restored_has_its_index(p, torch, n - 1);
        assert(p.take(n).drop_last() =~= p.take(n - 1));
        let rest = p.take(n - 1).filter(f);
        if f(p[n - 1]) {
            assert(p.take(n).filter(f) =~= rest.push(p[n - 1]));
            assert(rest.push(p[n - 1]).map_values(g) =~= rest.map_values(g).push(g(p[n - 1])));
        }
        assert(specs_by_index(p, torch, n) =~= p.take(n).filter(f).map_values(g));
    } else {
        assert(specs_by_index(p, torch, n) =~= p.take(n).filter(f).map_values(g));
    }
}

/// PyTorch counts as lost exactly where it was built for CUDA and is no longer: it
/// has another build now, or is gone.
pub proof fn torch_is_lost_with_cuda(before: Option<Seq<char>>, after: Option<Seq<char>>)
    ensures
        torch_lost(before, after) is Some <==> (before is Some && text::has_text(
            before->0,
            "+cu"@,
        )) && !(after is Some && text::has_text(after->0, "+cu"@)),
{
}

/// PyTorch is held to the versions that are there: each of its packages that has one,
/// and nothing else.
pub proof fn torch_is_held_to_what_is_there(v: Map<Seq<char>, Seq<char>>, n: int, x: Seq<char>)
    requires
        0 <= n <= pins::torch_specs().len(),
    ensures
        torch_held(v, n).contains(x) <==> exists|i: int|
            0 <= i < n && is_hold_of(#[trigger] pins::torch_specs()[i], v, x),
    decreases n,
{
    if n > 0 {
        torch_is_held_to_what_is_there(v, n - 1, x);
        let a = torch_held(v, n - 1);
        let b = torch_held(v, n);
        let t = pins::torch_specs();
        if b.contains(x) {
            let j = choose|j: int| 0 <= j < b.len() && b[j] == x;
            if j < a.len() {
                assert(a[j] == x);
                let i = choose|i: int| 0 <= i < n - 1 && is_hold_of(#[trigger] t[i], v, x);
                assert(is_hold_of(t[i], v, x));
            } else {
                assert(is_hold_of(t[n - 1], v, x));
            }
        }
        if exists|i: int| 0 <= i < n && is_hold_of(#[trigger] t[i], v, x) {
            let i = choose|i: int| 0 <= i < n && is_hold_of(#[trigger] t[i], v, x);
            if i == n - 1 {
                assert(b[b.len() - 1] == x);
            } else {
                assert(a.contains(x));
                let j = choose|j: int| 0 <= j < a.len() && a[j] == x;
                assert(b[j] == x);
            }
        }
    }
}

/// The constraint holds the package of a requirement to the version that is there.
pub open spec fn is_hold_of(
    spec_text: Seq<char>,
    v: Map<Seq<char>, Seq<char>>,
    x: Seq<char>,
) -> bool {
    let name = normal_name(pins::req_name(spec_text));
    v.contains_key(name) && x == name + "=="@ + v[name]
}

proof fn lemma_losses(before: Seq<ImportCheck>, after: Seq<ImportCheck>, i: int, k: int)
    requires
        0 <= i <= before.len(),
        i <= k < before.len(),
    ensures
        import_loss(before[k].module@, checked(after, before[k].module@, 0)) is Some
            && before[k].failure is None ==> losses_from(before, after, i).contains(
            import_loss(before[k].module@, checked(after, before[k].module@, 0))->0,
        ),
    decreases k - i,
{
    let all = losses_from(before, after, i);
    let rest = losses_from(before, after, i + 1);
    let loss = import_loss(before[i].module@, checked(after, before[i].module@, 0));
    if k > i {
        lemma_losses(before, after, i + 1, k);
        let x = import_loss(before[k].module@, checked(after, before[k].module@, 0));
        if x is Some && before[k].failure is None {
            let j = choose|j: int| 0 <= j < rest.len() && rest[j] == x->0;
            if before[i].failure is None && loss is Some {
                assert(all[j + 1] == x->0);
            }
        }
    } else if before[i].failure is None && loss is Some {
        assert(all[0] == loss->0);
    }
}

proof fn lemma_no_losses(before: Seq<ImportCheck>, after: Seq<ImportCheck>, i: int)
    requires
        0 <= i <= before.len(),
    ensures
        losses_from(before, after, i).len() == 0 <==> forall|k: int|
            i <= k < before.len() && (#[trigger] before[k]).failure is None ==> checked(
                after,
                before[k].module@,
                0,
            ) == Some(None::<Seq<char>>),
    decreases before.len() - i,
{
    if i < before.len() {
        lemma_no_losses(before, after, i + 1);
    }
}

/// Nothing counts as lost exactly where every module that could be imported before
/// can be now; one that could not be before does not count. Every module that can no
/// longer be imported is told, with the reason where there is one.
pub proof fn every_lost_import_is_told(before: Seq<ImportCheck>, after: Seq<ImportCheck>, k: int)
    requires
        0 <= k < before.len(),
    ensures
        losses_from(before, after, 0).len() == 0 <==> forall|i: int|
            0 <= i < before.len() && (#[trigger] before[i]).failure is None ==> checked(
                after,
                before[i].module@,
                0,
            ) == Some(None::<Seq<char>>),
        before[k].failure is None && checked(after, before[k].module@, 0) is None ==> losses_from(
            before,
            after,
            0,
        ).contains(before[k].module@),
        before[k].failure is None && (checked(after, before[k].module@, 0) matches Some(Some(why))
            && true) ==> losses_from(before, after, 0).contains(
            before[k].module@ + ": "@ + checked(after, before[k].module@, 0)->0->0,
        ),
{
    lemma_no_losses(before, after, 0);
    lemma_losses(before, after, 0, k);
}

/// What stands behind a marker is found where a line, white space at its ends aside,
/// begins with the marker, and only there.
pub proof fn markers_stand_at_the_front(line: Seq<char>, marker: Seq<char>, rest: Seq<char>)
    ensures
        text::trimmed(line) == marker + rest ==> behind_marker(line, marker) == Some(rest),
        !marker.is_prefix_of(text::trimmed(line)) ==> behind_marker(line, marker) is None,
{
    assert((marker + rest).skip(marker.len() as int) =~= rest);
    assert((marker + rest).take(marker.len() as int) =~= marker);
}

/// A table is read of a line where it holds one, with all of its entries; their names
/// are normalised where that is asked for, and only then.
pub proof fn tables_are_read_whole(
    json: Seq<char>,
    pairs: Seq<(Seq<char>, Seq<char>)>,
    i: int,
)
    requires
        0 <= i < pairs.len(),
    ensures
        line_table(Some(json), None, true) is None && line_table(Some(json), None, false) is None,
        line_table(Some(json), Some(pairs), false) is Some && (line_table(
            Some(json),
            Some(pairs),
            false,
        )->0).contains_key(pairs[i].0),
        line_table(Some(json), Some(pairs), true) is Some && (line_table(
            Some(json),
            Some(pairs),
            true,
        )->0).contains_key(normal_name(pairs[i].0)),
        (forall|j: int| i < j < pairs.len() ==> (#[trigger] pairs[j]).0 != pairs[i].0) ==> (
        line_table(Some(json), Some(pairs), false)->0)[pairs[i].0] == pairs[i].1,
{
    let n = normal_pairs(pairs);
    the_last_pair_of_a_name_counts(pairs, pairs.len() as int, i);
    the_last_pair_of_a_name_counts(n, n.len() as int, i);
    assert(n[i].0 == normal_name(pairs[i].0));
    assert(pairs[i].0 == pairs[i].0);
}

/// Every name of a list stands in it, between quotation marks.
pub proof fn every_name_is_listed(s: Seq<Seq<char>>, k: int)
    requires
        0 <= k < s.len(),
    ensures
        text::has_text(python_list(s), "\""@ + s[k] + "\""@),
{
    let q = Seq::new(s.len(), |i: int| "\""@ + s[i] + "\""@);
    text::joined_texts_are_all_there(q, ", "@, s.len() as int, k);
    text::lemma_holds_more("["@, text::joined(q, ", "@, s.len() as int), "]"@, q[k]);
}

} // verus!
