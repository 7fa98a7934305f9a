//! The files of the voices that speech is modelled on.
use vstd::prelude::*;

use crate::paths::AssetPath;
use crate::paths;
use crate::text::{
    chars_of, ends_with, owned, push_text, signed_decimal_wide, slice_text,
    starts_with,
};
use crate::text;

verus! {

/// The directory of everything that belongs to the engine.
pub fn irodori_root(app_data: &AssetPath) -> (r: AssetPath)
    ensures
        r@ == paths::below(app_data@, "irodori"@),
{
    app_data.join("irodori")
}

/// The directory of the voices.
pub fn refs_dir(app_data: &AssetPath) -> (r: AssetPath)
    ensures
        r@ == paths::below(paths::below(app_data@, "irodori"@), "refs"@),
{
    irodori_root(app_data).join("refs")
}

/// A character that may not stand in the name of a slot.
pub open spec fn is_refused(c: char) -> bool {
    c == '/' || c == '\\' || c == '\0' || c == '.'
}

/// The name of a slot is not empty and holds nothing that leads elsewhere.
pub open spec fn slot_accepted(slot: Seq<char>) -> bool {
    slot.len() > 0 && forall|i: int| 0 <= i < slot.len() ==> !is_refused(#[trigger] slot[i])
}

/// The name of a voice without its ending.
pub open spec fn ref_stem(slot: Seq<char>, id: int) -> Seq<char> {
    slot + "_"@ + text::signed_decimal(id)
}

/// Where the voice of a slot is.
pub open spec fn ref_place(dir: paths::Place, slot: Seq<char>, id: int) -> paths::Place {
    paths::below(dir, ref_stem(slot, id) + ".wav"@)
}

/// What is told of a slot whose name is refused.
pub open spec fn slot_refused_text(slot: Seq<char>) -> Seq<char> {
    "slot に不正な文字が含まれています: "@ + slot
}

/// Says where the voice of a slot is, below the given directory.
pub fn ref_path_in_dir(dir: &AssetPath, slot: &str, id: i64) -> (r: Result<AssetPath, String>)
    ensures
        match r {
            Ok(p) => slot_accepted(slot@) && p@ == ref_place(dir@, slot@, id as int),
            Err(e) => !slot_accepted(slot@) && e@ == slot_refused_text(slot@),
        },
{
    let cs = chars_of(slot);
    let mut accepted = cs.len() > 0;
    let mut i: usize = 0;
    while i < cs.len()
        invariant
            i <= cs@.len(),
            cs@ == slot@,
            accepted ==> cs@.len() > 0,
            accepted ==> forall|k: int| 0 <= k < i ==> !is_refused(#[trigger] slot@[k]),
            !accepted ==> !slot_accepted(slot@),
        decreases cs@.len() - i,
    {
        let c = cs[i];
        if c == '/' || c == '\\' || c == '\0' || c == '.' {
            assert(is_refused(slot@[i as int]));
            accepted = false;
        }
        i += 1;
    }
    if !accepted {
        let mut out = owned("slot に不正な文字が含まれています: ");
        push_text(&mut out, slot);
        return Err(out);
    }
    let mut name = owned(slot);
    push_text(&mut name, "_");
    push_text(&mut name, signed_decimal_wide(id).as_str());
    push_text(&mut name, ".wav");
    Ok(dir.join(name.as_str()))
}

/// Says where the voice of a slot is.
pub fn ref_path_for(app_data: &AssetPath, slot: &str, id: i64) -> (r: Result<AssetPath, String>)
    ensures
        match r {
            Ok(p) => slot_accepted(slot@) && p@ == ref_place(
                paths::below(paths::below(app_data@, "irodori"@), "refs"@),
                slot@,
                id as int,
            ),
            Err(e) => !slot_accepted(slot@) && e@ == slot_refused_text(slot@),
        },
{
    ref_path_in_dir(&refs_dir(app_data), slot, id)
}

/// The position of the last dot, or -1, among the first `n` characters.
pub open spec fn last_dot(s: Seq<char>, n: int) -> int
    decreases n,
{
    if n <= 0 {
        -1
    } else if s[n - 1] == '.' {
        n - 1
    } else {
        last_dot(s, n - 1)
    }
}

/// A file name without its ending. A dot in front begins no ending.
pub open spec fn stem_of(name: Seq<char>) -> Seq<char> {
    let dot = last_dot(name, name.len() as int);
    if dot <= 0 || name == ".."@ {
        name
    } else {
        name.subrange(0, dot)
    }
}

/// Takes the ending off a file name.
pub fn file_stem(name: &str) -> (r: String)
    ensures
        r@ == stem_of(name@),
{
    if text::same(name, "..") {
        return owned(name);
    }
    let cs = chars_of(name);
    let mut n: usize = cs.len();
    while n > 0 && cs[n - 1] != '.'
        invariant
            n <= cs@.len(),
            cs@ == name@,
            last_dot(name@, name@.len() as int) == last_dot(name@, n as int),
        decreases n,
    {
        n -= 1;
    }
    if n <= 1 {
        owned(name)
    } else {
        slice_text(&cs, 0, n - 1)
    }
}

/// The ending of what is computed from a voice beforehand.
pub const REF_LATENT_SUFFIX: &'static str = ".latent.pt";

/// What was computed from the voice of that stem, finished or not. The dot
/// behind the stem keeps the voice with number 10 apart from that with number 1.
pub open spec fn is_latent_of(name: Seq<char>, stem: Seq<char>) -> bool {
    (stem + "."@).is_prefix_of(name) && (REF_LATENT_SUFFIX@.is_suffix_of(name) || (
    REF_LATENT_SUFFIX@ + ".tmp"@).is_suffix_of(name))
}

/// Those of the first `n` names that were computed from the voice of that stem.
pub open spec fn latents_among(s: Seq<Seq<char>>, stem: Seq<char>, n: int) -> Seq<Seq<char>>
    decreases n,
{
    if n <= 0 {
        Seq::empty()
    } else if is_latent_of(s[n - 1], stem) {
        latents_among(s, stem, n - 1).push(s[n - 1])
    } else {
        latents_among(s, stem, n - 1)
    }
}

/// What is deleted together with a voice: what was computed from it, among the
/// names in the same directory.
pub fn ref_latents(ref_wav: &str, names: &Vec<String>) -> (r: Vec<String>)
    ensures
        text::texts(r@) == latents_among(
            text::texts(names@),
            stem_of(ref_wav@),
            names@.len() as int,
        ),
{
    let stem = file_stem(ref_wav);
    let mut prefix = owned(stem.as_str());
    push_text(&mut prefix, ".");
    let mut unfinished = owned(REF_LATENT_SUFFIX);
    push_text(&mut unfinished, ".tmp");
    let ghost s = text::texts(names@);
    let mut out: Vec<String> = Vec::new();
    let mut i: usize = 0;
    assert(text::texts(out@) =~= latents_among(s, stem@, 0));
    while i < names.len()
        invariant
            i <= names@.len(),
            s == text::texts(names@),
            prefix@ == stem@ + "."@,
            unfinished@ == REF_LATENT_SUFFIX@ + ".tmp"@,
            text::texts(out@) == latents_among(s, stem@, i as int),
        decreases names@.len() - i,
    {
        let ghost before = text::texts(out@);
        assert(s[i as int] == names@[i as int]@);
        let name = names[i].as_str();
        if starts_with(name, prefix.as_str()) && (ends_with(name, REF_LATENT_SUFFIX) || ends_with(
            name,
            unfinished.as_str(),
        )) {
            out.push(owned(name));
            assert(text::texts(out@) =~= before.push(name@));
        }
        i += 1;
    }
    out
}

/// What was computed from one voice is never deleted with another: a name
/// belongs to one stem only, for a stem holds no dot.
pub proof fn latents_belong_to_one_voice(name: Seq<char>, a: Seq<char>, b: Seq<char>)
    requires
        is_latent_of(name, a),
        is_latent_of(name, b),
        !a.contains('.'),
        !b.contains('.'),
    ensures
        a == b,
{
    reveal_strlit(".");
    let pa = a + "."@;
    let pb = b + "."@;
    assert(pa[a.len() as int] == '.');
    assert(pb[b.len() as int] == '.');
    assert forall|i: int| 0 <= i < pa.len() implies name[i] == pa[i] by {}
    assert forall|i: int| 0 <= i < pb.len() implies name[i] == pb[i] by {}
    if a.len() < b.len() {
        assert(name[a.len() as int] == '.');
        assert(b[a.len() as int] == '.');
        assert(b.contains('.'));
    } else if b.len() < a.len() {
        assert(name[b.len() as int] == '.');
        assert(a[b.len() as int] == '.');
        assert(a.contains('.'));
    } else {
        assert forall|i: int| 0 <= i < a.len() implies a[i] == b[i] by {
            assert(name[i] == pa[i]);
            assert(name[i] == pb[i]);
        }
        assert(a =~= b);
    }
}

/// The voice of an accepted slot has a stem without a dot, and two voices have
/// the same stem only where slot and number are the same.
pub proof fn voices_have_names_of_their_own(s: Seq<char>, i: int, t: Seq<char>, j: int)
    requires
        slot_accepted(s),
        slot_accepted(t),
    ensures
        !ref_stem(s, i).contains('.'),
        ref_stem(s, i) == ref_stem(t, j) ==> s == t && i == j,
{
    reveal_strlit("_");
    text::signed_decimal_is_distinct(i, j);
    text::signed_decimal_is_distinct(j, i);
    let a = ref_stem(s, i);
    let b = ref_stem(t, j);
    let di = text::signed_decimal(i);
    let dj = text::signed_decimal(j);
    assert forall|k: int| 0 <= k < a.len() implies a[k] != '.' by {
        if k < s.len() {
            assert(!is_refused(s[k]));
        } else if k > s.len() {
            assert(a[k] == di[k - s.len() - 1]);
            assert(text::is_digit(di[k - s.len() - 1]) || di[k - s.len() - 1] == '-');
        }
    }
    if a == b {
        assert(a.len() == s.len() + 1 + di.len());
        assert(b.len() == t.len() + 1 + dj.len());
        assert(a[s.len() as int] == '_');
        assert(b[t.len() as int] == '_');
        assert(forall|k: int| s.len() < k < a.len() ==> #[trigger] a[k] == di[k - s.len() - 1]);
        assert(forall|k: int| t.len() < k < b.len() ==> #[trigger] b[k] == dj[k - t.len() - 1]);
        if s.len() < t.len() {
            assert(a[t.len() as int] == di[t.len() - s.len() - 1]);
            assert(text::is_digit(di[t.len() - s.len() - 1]) || di[t.len() - s.len() - 1] == '-');
        } else if t.len() < s.len() {
            assert(b[s.len() as int] == dj[s.len() - t.len() - 1]);
            assert(text::is_digit(dj[s.len() - t.len() - 1]) || dj[s.len() - t.len() - 1] == '-');
        } else {
            assert(s =~= a.take(s.len() as int));
            assert(t =~= b.take(t.len() as int));
            assert(di =~= a.skip(s.len() as int + 1));
            assert(dj =~= b.skip(t.len() as int + 1));
        }
    }
}

proof fn lemma_latents(s: Seq<Seq<char>>, stem: Seq<char>, n: int)
    requires
        0 <= n <= s.len(),
    ensures
        latents_among(s, stem, n) == s.take(n).filter(|x: Seq<char>| is_latent_of(x, stem)),
    decreases n,
{
    reveal(Seq::filter);
    if n > 0 {
        lemma_latents(s, stem, n - 1);
        assert(s.take(n).drop_last() =~= s.take(n - 1));
    }
}

/// All latents of a voice go with it, the finished and the unfinished ones, and no
/// other file.
pub proof fn all_latents_of_a_voice_are_found(s: Seq<Seq<char>>, stem: Seq<char>)
    ensures
        latents_among(s, stem, s.len() as int) == s.filter(
            |x: Seq<char>|
                (stem + "."@).is_prefix_of(x) && (".latent.pt"@.is_suffix_of(x) || (".latent.pt"@
                    + ".tmp"@).is_suffix_of(x)),
        ),
{
    lemma_latents(s, stem, s.len() as int);
    assert(s.take(s.len() as int) =~= s);
    let f = |x: Seq<char>| is_latent_of(x, stem);
    let g = |x: Seq<char>|
        (stem + "."@).is_prefix_of(x) && (".latent.pt"@.is_suffix_of(x) || (".latent.pt"@
            + ".tmp"@).is_suffix_of(x));
    assert(f =~= g);
}

proof fn lemma_last_dot(s: Seq<char>, n: int, k: int)
    requires
        0 <= k < n <= s.len(),
        s[k] == '.',
        forall|j: int| k < j < n ==> s[j] != '.',
    ensures
        last_dot(s, n) == k,
    decreases n,
{
    if n - 1 > k {
        lemma_last_dot(s, n - 1, k);
    }
}

proof fn lemma_no_dot(s: Seq<char>, n: int)
    requires
        0 <= n <= s.len(),
        forall|j: int| 0 <= j < n ==> s[j] != '.',
    ensures
        last_dot(s, n) == -1,
    decreases n,
{
    if n > 0 {
        lemma_no_dot(s, n - 1);
    }
}

/// The stem of a file's name is what stands before its last dot; a name without a dot,
/// or with none but at its front, is its own stem.
pub proof fn the_stem_stands_before_the_last_dot(stem: Seq<char>, extension: Seq<char>)
    requires
        !extension.contains('.'),
    ensures
        stem.len() > 0 && stem + seq!['.'] + extension != ".."@ ==> stem_of(
            stem + seq!['.'] + extension,
        ) == stem,
        stem_of(extension) == extension,
        stem_of(seq!['.'] + extension) == seq!['.'] + extension,
{
    let name = stem + seq!['.'] + extension;
    let d = stem.len() as int;
    assert(name[d] == '.');
    assert forall|j: int| d < j < name.len() implies name[j] != '.' by {
        assert(name[j] == extension[j - d - 1]);
        assert(extension.contains(name[j]));
    }
    lemma_last_dot(name, name.len() as int, d);
    assert(name.subrange(0, d) =~= stem);
    assert forall|j: int| 0 <= j < extension.len() implies extension[j] != '.' by {
        assert(extension.contains(extension[j]));
    }
    lemma_no_dot(extension, extension.len() as int);
    let hidden = seq!['.'] + extension;
    assert(hidden[0] == '.');
    assert forall|j: int| 0 < j < hidden.len() implies hidden[j] != '.' by {
        assert(hidden[j] == extension[j - 1]);
        assert(extension.contains(hidden[j]));
    }
    lemma_last_dot(hidden, hidden.len() as int, 0);
}

} // verus!
