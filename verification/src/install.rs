//! The first installation: what is fetched and installed, in which order, and
//! how the embedded Python is made to see what pip installs.
use vstd::prelude::*;

use crate::names;
use crate::pins::{
    common_requirements, irodori_extra_requirements, model_args_for_fetch, torch_packages,
    DACVAE_ZIPBALL, GET_PIP_URL, IRODORI_TTS_ZIPBALL, PYTHON_URL, PYTHON_VERSION,
    SILENTCIPHER_ZIPBALL, TORCH_CUDA_INDEX_URL,
};
use crate::pins;
use crate::text::{
    decimal_text, ends_with, lines, owned, push_text, replace_all, same, trim_front,
};
use crate::text;

verus! {

/// The line that makes Python see installed packages.
pub const IMPORT_SITE: &'static str = "import site";

/// A line that would make Python see installed packages, were it no comment.
pub open spec fn is_disabled(line: Seq<char>) -> bool {
    text::trim_start(line) == "#import site"@ || text::trim_start(line) == "# import site"@
}

/// A line that makes Python see installed packages.
pub open spec fn is_enabled(line: Seq<char>) -> bool {
    text::trim_start(line) == IMPORT_SITE@
}

/// The line, no longer a comment where it would make Python see installed
/// packages.
pub open spec fn enabled_line(line: Seq<char>) -> Seq<char> {
    if is_disabled(line) {
        IMPORT_SITE@
    } else {
        line
    }
}

/// One of the first `n` lines makes Python see installed packages, once
/// comments are taken off.
pub open spec fn sees_site(l: Seq<Seq<char>>, n: int) -> bool
    decreases n,
{
    n > 0 && (sees_site(l, n - 1) || is_disabled(l[n - 1]) || is_enabled(l[n - 1]))
}

/// The lines, each with a newline, from the `i`-th on.
pub open spec fn unlines(l: Seq<Seq<char>>, i: int) -> Seq<char>
    decreases l.len() - i,
    when 0 <= i <= l.len()
{
    if i == l.len() {
        Seq::empty()
    } else {
        l[i] + seq!['\n'] + unlines(l, i + 1)
    }
}

/// The lines of the file once Python sees installed packages.
pub open spec fn patched_lines(l: Seq<Seq<char>>) -> Seq<Seq<char>> {
    let e = Seq::new(l.len(), |i: int| enabled_line(l[i]));
    if sees_site(l, l.len() as int) {
        e
    } else {
        e.push(IMPORT_SITE@)
    }
}

/// The file once Python sees installed packages.
pub open spec fn patched(input: Seq<char>) -> Seq<char> {
    unlines(patched_lines(text::lines_of(input)), 0)
}

proof fn lemma_unlines_push(l: Seq<Seq<char>>, x: Seq<char>, i: int)
    requires
        0 <= i <= l.len(),
    ensures
        unlines(l.push(x), i) == unlines(l, i) + (x + seq!['\n']),
    decreases l.len() - i,
{
    let m = l.push(x);
    if i == l.len() {
        assert(m[i] == x);
        assert(unlines(m, i + 1) == Seq::<char>::empty());
        assert(unlines(m, i) =~= unlines(l, i) + (x + seq!['\n']));
    } else {
        lemma_unlines_push(l, x, i + 1);
        assert(m[i] == l[i]);
        assert(unlines(m, i) =~= unlines(l, i) + (x + seq!['\n']));
    }
}

/// Makes the embedded Python see installed packages: takes the comment off the
/// line that does, or adds it where it is missing.
pub fn patch_pth(input: &str) -> (r: String)
    ensures
        r@ == patched(input@),
{
    let all = lines(input);
    let ghost l = text::texts(all@);
    let ghost e = Seq::new(l.len(), |i: int| enabled_line(l[i]));
    let mut out = String::new();
    let mut seen = false;
    let mut i: usize = 0;
    assert(e.take(0) =~= Seq::<Seq<char>>::empty());
    while i < all.len()
        invariant
            i <= all@.len(),
            l == text::texts(all@),
            e == Seq::new(l.len(), |k: int| enabled_line(l[k])),
            seen == sees_site(l, i as int),
            out@ == unlines(e.take(i as int), 0),
        decreases all@.len() - i,
    {
        assert(l[i as int] == all@[i as int]@);
        let line = all[i].as_str();
        let front = trim_front(line);
        proof {
            lemma_unlines_push(e.take(i as int), e[i as int], 0);
            assert(e.take(i as int).push(e[i as int]) =~= e.take(i + 1));
        }
        let ghost before = out@;
        if same(front.as_str(), "#import site") || same(front.as_str(), "# import site") {
            push_text(&mut out, IMPORT_SITE);
            seen = true;
        } else {
            if same(front.as_str(), IMPORT_SITE) {
                seen = true;
            }
            push_text(&mut out, line);
        }
        out.push('\n');
        assert(out@ =~= before + (e[i as int] + seq!['\n']));
        i += 1;
    }
    assert(e.take(l.len() as int) =~= e);
    if !seen {
        proof {
            lemma_unlines_push(e, IMPORT_SITE@, 0);
        }
        let ghost before = out@;
        push_text(&mut out, IMPORT_SITE);
        out.push('\n');
        assert(out@ =~= before + (IMPORT_SITE@ + seq!['\n']));
    }
    out
}

/// The line can be written and read back: it holds no newline, and no carriage
/// return ends it.
pub open spec fn is_plain_line(line: Seq<char>) -> bool {
    !line.contains('\n') && !(line.len() > 0 && line.last() == '\r')
}

proof fn lemma_lines_hold_no_newline(s: Seq<char>, i: int, k: int)
    requires
        0 <= i <= s.len(),
        0 <= k < text::lines_from(s, i).len(),
    ensures
        !text::lines_from(s, i)[k].contains('\n'),
    decreases s.len() - i,
{
    text::lemma_line_end(s, i);
    let e = text::line_end(s, i);
    let line = text::lines_from(s, i)[k];
    if i < s.len() {
        if k == 0 {
            let whole = s.subrange(i, e);
            assert forall|j: int| 0 <= j < line.len() implies line[j] != '\n' by {
                assert(line[j] == whole[j]);
                assert(whole[j] == s[i + j]);
            }
        } else {
            lemma_lines_hold_no_newline(s, e + 1, k - 1);
            assert(line == text::lines_from(s, e + 1)[k - 1]);
        }
    }
}

proof fn lemma_line_end_at(s: Seq<char>, i: int, e: int)
    requires
        0 <= i <= e < s.len(),
        s[e] == '\n',
        forall|j: int| i <= j < e ==> s[j] != '\n',
    ensures
        text::line_end(s, i) == e,
    decreases e - i,
{
    if i < e {
        lemma_line_end_at(s, i + 1, e);
    }
}

proof fn lemma_read_back(p: Seq<char>, l: Seq<Seq<char>>, i: int)
    requires
        0 <= i <= l.len(),
        forall|k: int| 0 <= k < l.len() ==> is_plain_line(#[trigger] l[k]),
    ensures
        text::lines_from(p + unlines(l, i), p.len() as int) == l.subrange(i, l.len() as int),
    decreases l.len() - i,
{
    let s = p + unlines(l, i);
    if i == l.len() {
        assert(s =~= p);
        assert(l.subrange(i, l.len() as int) =~= Seq::<Seq<char>>::empty());
    } else {
        let e = p.len() + l[i].len();
        let rest = unlines(l, i + 1);
        assert(is_plain_line(l[i]));
        assert(s[e as int] == '\n');
        assert forall|j: int| p.len() <= j < e implies s[j] != '\n' by {
            assert(s[j] == l[i][j - p.len()]);
            assert(l[i].contains(l[i][j - p.len()]));
        }
        lemma_line_end_at(s, p.len() as int, e as int);
        assert(s.subrange(p.len() as int, e as int) =~= l[i]);
        let q = p + l[i] + seq!['\n'];
        assert(s =~= q + rest);
        lemma_read_back(q, l, i + 1);
        assert(q.len() == e + 1);
        assert(l.subrange(i, l.len() as int) =~= seq![l[i]] + l.subrange(i + 1, l.len() as int));
    }
}

proof fn lemma_sees_site(l: Seq<Seq<char>>, n: int, k: int)
    requires
        0 <= k < n <= l.len(),
        is_disabled(l[k]) || is_enabled(l[k]),
    ensures
        sees_site(l, n),
    decreases n,
{
    if k < n - 1 {
        lemma_sees_site(l, n - 1, k);
    }
}

proof fn lemma_enabled_stays(line: Seq<char>)
    ensures
        enabled_line(enabled_line(line)) == enabled_line(line),
        is_enabled(IMPORT_SITE@),
        !is_disabled(IMPORT_SITE@),
        is_plain_line(IMPORT_SITE@),
        !is_disabled(enabled_line(line)),
{
    reveal_strlit("import site");
    reveal_strlit("#import site");
    reveal_strlit("# import site");
    let s = IMPORT_SITE@;
    assert(!text::is_white(s[0]));
    assert(text::trim_start(s) == s);
    assert(s[0] != "#import site"@[0]);
    assert(s[0] != "# import site"@[0]);
    assert forall|j: int| 0 <= j < s.len() implies s[j] != '\n' by {}
}

proof fn lemma_seen(l: Seq<Seq<char>>, n: int) -> (k: int)
    requires
        0 <= n <= l.len(),
        sees_site(l, n),
    ensures
        0 <= k < n,
        is_disabled(l[k]) || is_enabled(l[k]),
    decreases n,
{
    if is_disabled(l[n - 1]) || is_enabled(l[n - 1]) {
        n - 1
    } else {
        lemma_seen(l, n - 1)
    }
}

proof fn lemma_patched_sees(l: Seq<Seq<char>>) -> (k: int)
    ensures
        0 <= k < patched_lines(l).len(),
        is_enabled(patched_lines(l)[k]),
        forall|j: int|
            0 <= j < patched_lines(l).len() ==> !is_disabled(#[trigger] patched_lines(l)[j]),
{
    let e = patched_lines(l);
    assert forall|j: int| 0 <= j < e.len() implies !is_disabled(#[trigger] e[j]) by {
        if j < l.len() {
            lemma_enabled_stays(l[j]);
        } else {
            lemma_enabled_stays(IMPORT_SITE@);
        }
    }
    lemma_enabled_stays(IMPORT_SITE@);
    if sees_site(l, l.len() as int) {
        let k = lemma_seen(l, l.len() as int);
        assert(e[k] == enabled_line(l[k]));
        k
    } else {
        l.len() as int
    }
}

/// Those of the first `n` lines that have nothing to do with installed packages.
pub open spec fn other_lines(l: Seq<Seq<char>>, n: int) -> Seq<Seq<char>>
    decreases n,
{
    if n <= 0 {
        Seq::empty()
    } else if is_disabled(l[n - 1]) || is_enabled(l[n - 1]) {
        other_lines(l, n - 1)
    } else {
        other_lines(l, n - 1).push(l[n - 1])
    }
}

proof fn lemma_others_stay(l: Seq<Seq<char>>, n: int)
    requires
        0 <= n <= l.len(),
    ensures
        other_lines(patched_lines(l), n) == other_lines(l, n),
    decreases n,
{
    if n > 0 {
        lemma_others_stay(l, n - 1);
        lemma_enabled_stays(l[n - 1]);
        assert(patched_lines(l)[n - 1] == enabled_line(l[n - 1]));
    }
}

/// What is read of a patched file is the patched lines: one of them makes Python
/// see installed packages, none is still a comment that would, and every other
/// line stands as it stood. Patching it again changes nothing. Where a carriage
/// return is left at the end of a line of the input, reading the patched file
/// would take it off.
pub proof fn patching_twice_changes_nothing(input: Seq<char>)
    requires
        forall|k: int|
            0 <= k < text::lines_of(input).len() ==> !((#[trigger] text::lines_of(input)[k]).len()
                > 0 && text::lines_of(input)[k].last() == '\r'),
    ensures
        text::lines_of(patched(input)) == patched_lines(text::lines_of(input)),
        patched(patched(input)) == patched(input),
        forall|k: int|
            0 <= k < text::lines_of(patched(input)).len() ==> !is_disabled(
                #[trigger] text::lines_of(patched(input))[k],
            ),
        other_lines(
            text::lines_of(patched(input)),
            text::lines_of(patched(input)).len() as int,
        ) == other_lines(text::lines_of(input), text::lines_of(input).len() as int),
        exists|k: int|
            0 <= k < text::lines_of(patched(input)).len() && is_enabled(
                #[trigger] text::lines_of(patched(input))[k],
            ),
{
    let l = text::lines_of(input);
    let e = patched_lines(l);
    lemma_enabled_stays(IMPORT_SITE@);
    assert forall|k: int| 0 <= k < e.len() implies is_plain_line(#[trigger] e[k]) by {
        if k < l.len() {
            lemma_lines_hold_no_newline(input, 0, k);
            assert(l[k] == text::lines_of(input)[k]);
        }
    }
    lemma_read_back(Seq::empty(), e, 0);
    assert(Seq::<char>::empty() + unlines(e, 0) =~= unlines(e, 0));
    assert(e.subrange(0, e.len() as int) =~= e);
    assert(text::lines_of(patched(input)) == e);
    let k = lemma_patched_sees(l);
    assert(is_enabled(text::lines_of(patched(input))[k]));
    lemma_sees_site(e, e.len() as int, k);
    assert(patched_lines(e) =~= e);
    lemma_others_stay(l, l.len() as int);
}

/// The first of the files that says what Python sees.
pub fn pth_file(names: &Vec<String>) -> (r: Option<usize>)
    ensures
        match r {
            Some(k) => k < names@.len() && "._pth"@.is_suffix_of(names@[k as int]@) && forall|j: int|
                0 <= j < k ==> !"._pth"@.is_suffix_of(#[trigger] names@[j]@),
            None => forall|j: int|
                0 <= j < names@.len() ==> !"._pth"@.is_suffix_of(#[trigger] names@[j]@),
        },
{
    let mut i: usize = 0;
    while i < names.len()
        invariant
            i <= names@.len(),
            forall|j: int| 0 <= j < i ==> !"._pth"@.is_suffix_of(#[trigger] names@[j]@),
        decreases names@.len() - i,
    {
        if ends_with(names[i].as_str(), "._pth") {
            return Some(i);
        }
        i += 1;
    }
    None
}

/// What is told where no such file is found.
pub fn no_pth_file(dir: &str) -> (r: String)
    ensures
        r@ == "python._pth が "@ + dir@ + " に見つかりません"@,
{
    let mut out = owned("python._pth が ");
    push_text(&mut out, dir);
    push_text(&mut out, " に見つかりません");
    out
}

/// A path between the single quotes of a PowerShell string: a quote is doubled.
pub open spec fn quoted(p: Seq<char>) -> Seq<char> {
    text::replaced(p, "'"@, "''"@)
}

/// Writes a path so that it can stand between the single quotes of a
/// PowerShell string.
pub fn ps_single_quoted(path: &str) -> (r: String)
    ensures
        r@ == quoted(path@),
{
    proof {
        reveal_strlit("'");
    }
    replace_all(path, "'", "''")
}

proof fn lemma_unquoted(p: Seq<char>, i: int, q: Seq<char>)
    requires
        0 <= i <= p.len(),
    ensures
        text::replaced_from(
            q + text::replaced_from(p, i, "'"@, "''"@),
            q.len() as int,
            "''"@,
            "'"@,
        ) == p.subrange(i, p.len() as int),
    decreases p.len() - i,
{
    reveal_strlit("'");
    reveal_strlit("''");
    let s = q + text::replaced_from(p, i, "'"@, "''"@);
    if i == p.len() {
        assert(s =~= q);
        assert(p.subrange(i, p.len() as int) =~= Seq::<char>::empty());
    } else {
        assert(p.subrange(i, p.len() as int) =~= seq![p[i]] + p.subrange(i + 1, p.len() as int));
        let rest = text::replaced_from(p, i + 1, "'"@, "''"@);
        assert(text::matches_at(p, i, "'"@) == (p[i] == '\'')) by {
            assert(p.subrange(i, i + 1) =~= seq![p[i]]);
            assert("'"@ =~= seq!['\'']);
            assert(seq![p[i]][0] == p[i] && "'"@[0] == '\'');
        }
        if p[i] == '\'' {
            let q2 = q + "''"@;
            assert(s =~= q2 + rest);
            lemma_unquoted(p, i + 1, q2);
            assert(s.subrange(q.len() as int, q.len() as int + 2) =~= "''"@);
            assert(text::matches_at(s, q.len() as int, "''"@));
            assert("'"@ =~= seq![p[i]]);
        } else {
            let q2 = q + seq![p[i]];
            assert(s =~= q2 + rest);
            lemma_unquoted(p, i + 1, q2);
            assert(s[q.len() as int] == p[i]);
            assert(!text::matches_at(s, q.len() as int, "''"@)) by {
                if text::matches_at(s, q.len() as int, "''"@) {
                    assert(s.subrange(q.len() as int, q.len() as int + 2)[0] == s[q.len() as int]);
                }
            }
        }
    }
}

/// Every path comes back as it was where a doubled quote is read as one.
pub proof fn quoting_is_undone_by_reading(p: Seq<char>)
    ensures
        text::replaced(quoted(p), "''"@, "'"@) == p,
{
    lemma_unquoted(p, 0, Seq::empty());
    assert(Seq::<char>::empty() + quoted(p) =~= quoted(p));
    assert(p.subrange(0, p.len() as int) =~= p);
}

/// The command that unpacks an archive.
pub fn expand_command(zip: &str, dest: &str) -> (r: String)
    ensures
        r@ == "Expand-Archive -LiteralPath '"@ + quoted(zip@) + "' -DestinationPath '"@ + quoted(
            dest@,
        ) + "' -Force"@,
{
    let mut out = owned("Expand-Archive -LiteralPath '");
    push_text(&mut out, ps_single_quoted(zip).as_str());
    push_text(&mut out, "' -DestinationPath '");
    push_text(&mut out, ps_single_quoted(dest).as_str());
    push_text(&mut out, "' -Force");
    out
}

/// How Python gets in place.
#[derive(Debug, PartialEq, Eq)]
pub enum PythonStep {
    /// It is there.
    Placed,
    /// The archive is fetched from there, under that name, and unpacked.
    Fetch { url: &'static str, zip_name: String },
}

pub const PYTHON_PLACED: &'static str = "Python ランタイムは既に配置済みです (skip)";

/// How Python gets in place.
pub fn python_step(python_is_file: bool) -> (r: PythonStep)
    ensures
        python_is_file <==> r is Placed,
        !python_is_file ==> r->url@ == PYTHON_URL@ && r->zip_name@ == "python-"@ + PYTHON_VERSION@
            + "-embed-amd64.zip"@,
{
    if python_is_file {
        return PythonStep::Placed;
    }
    let mut zip_name = owned("python-");
    push_text(&mut zip_name, PYTHON_VERSION);
    push_text(&mut zip_name, "-embed-amd64.zip");
    PythonStep::Fetch { url: PYTHON_URL, zip_name }
}

/// How pip gets in place.
#[derive(Debug, PartialEq, Eq)]
pub enum PipStep {
    /// There is no Python to run it with; says so.
    NoPython(String),
    /// It is there.
    Placed,
    /// The script that installs it is fetched from there and run.
    Bootstrap { url: &'static str },
}

pub const PIP_PLACED: &'static str = "pip は既にブートストラップ済みです (skip)";

/// What is told where Python is missing.
pub fn no_python(python: &str) -> (r: String)
    ensures
        r@ == "python.exe が見つかりません: "@ + python@,
{
    let mut out = owned("python.exe が見つかりません: ");
    push_text(&mut out, python);
    out
}

/// How pip gets in place.
pub fn pip_step(python_is_file: bool, pip_is_dir: bool, python: &str) -> (r: PipStep)
    ensures
        match r {
            PipStep::NoPython(why) => !python_is_file && why@
                == "python.exe が見つかりません: "@ + python@,
            PipStep::Placed => python_is_file && pip_is_dir,
            PipStep::Bootstrap { url } => python_is_file && !pip_is_dir && url@ == GET_PIP_URL@,
        },
{
    if !python_is_file {
        PipStep::NoPython(no_python(python))
    } else if pip_is_dir {
        PipStep::Placed
    } else {
        PipStep::Bootstrap { url: GET_PIP_URL }
    }
}

/// One thing that pip installs: what is told before, and what pip is given.
#[derive(Debug, PartialEq, Eq)]
pub struct InstallStep {
    pub told: String,
    pub args: Vec<String>,
}

/// What an `InstallStep` says.
pub struct Install {
    pub told: Seq<char>,
    pub args: Seq<Seq<char>>,
}

impl View for InstallStep {
    type V = Install;

    open spec fn view(&self) -> Install {
        Install { told: self.told@, args: text::texts(self.args@) }
    }
}

/// What the steps say.
pub open spec fn installs(v: Seq<InstallStep>) -> Seq<Install> {
    Seq::new(v.len(), |i: int| v[i]@)
}

/// Appends copies of literal texts.
fn extend_names(out: &mut Vec<String>, more: &Vec<&'static str>)
    ensures
        text::texts(final(out)@) == text::texts(old(out)@) + text::str_texts(more@),
{
    let ghost before = text::texts(out@);
    let ghost m = text::str_texts(more@);
    let mut i: usize = 0;
    assert(before + m.take(0) =~= before);
    while i < more.len()
        invariant
            i <= more@.len(),
            m == text::str_texts(more@),
            text::texts(out@) == before + m.take(i as int),
        decreases more@.len() - i,
    {
        let ghost so_far = text::texts(out@);
        out.push(owned(more[i]));
        assert(text::texts(out@) =~= so_far.push(m[i as int]));
        assert(so_far.push(m[i as int]) =~= before + m.take(i + 1));
        i += 1;
    }
    assert(m.take(m.len() as int) =~= m);
}

/// Installs what every installation needs.
pub open spec fn common_install() -> Install {
    Install {
        told: "共通 Python 依存をインストールしています ("@ + text::decimal(
            pins::common_specs().len(),
        ) + " パッケージ)…"@,
        args: pins::common_specs(),
    }
}

/// Installs what every installation needs.
pub fn common_step() -> (r: InstallStep)
    ensures
        r@ == common_install(),
{
    let names = common_requirements();
    assert(names@.len() == text::str_texts(names@).len());
    let mut told = owned("共通 Python 依存をインストールしています (");
    push_text(&mut told, decimal_text(names.len() as u64).as_str());
    push_text(&mut told, " パッケージ)…");
    let mut args: Vec<String> = Vec::new();
    assert(text::texts(args@) =~= Seq::<Seq<char>>::empty());
    extend_names(&mut args, &names);
    assert(text::texts(args@) =~= pins::common_specs());
    InstallStep { told, args }
}

pub const TORCH_TOLD: &'static str =
    "PyTorch (CUDA 12.8) をインストールしています… (1〜2GB ダウンロードします)";

/// Installs PyTorch with CUDA.
pub fn torch_step() -> (r: InstallStep)
    ensures
        r@ == (Install {
            told: TORCH_TOLD@,
            args: seq!["--upgrade"@, "--index-url"@, TORCH_CUDA_INDEX_URL@] + pins::torch_specs(),
        }),
{
    let mut args: Vec<String> = Vec::new();
    args.push(owned("--upgrade"));
    args.push(owned("--index-url"));
    args.push(owned(TORCH_CUDA_INDEX_URL));
    assert(text::texts(args@) =~= seq!["--upgrade"@, "--index-url"@, TORCH_CUDA_INDEX_URL@]);
    extend_names(&mut args, &torch_packages());
    InstallStep { told: owned(TORCH_TOLD), args }
}

pub const SILENTCIPHER_TOLD: &'static str =
    "silentcipher を GitHub アーカイブから取得しています…";

pub const DACVAE_TOLD: &'static str = "dacvae を GitHub アーカイブから取得しています…";

pub const IRODORI_TTS_TOLD: &'static str =
    "Irodori-TTS 本体を GitHub アーカイブから取得しています…";

pub const RUNTIME_INSTALLED: &'static str =
    "Irodori-TTS ランタイムのインストールが完了しました";

/// Installs one archive without what it depends on.
pub open spec fn archive_install(told: Seq<char>, url: Seq<char>) -> Install {
    Install { told, args: seq!["--no-deps"@, url] }
}

fn archive_step(told: &str, url: &str) -> (r: InstallStep)
    ensures
        r@ == archive_install(told@, url@),
{
    let mut args: Vec<String> = Vec::new();
    args.push(owned("--no-deps"));
    args.push(owned(url));
    assert(text::texts(args@) =~= seq!["--no-deps"@, url@]);
    InstallStep { told: owned(told), args }
}

/// Installs what the engine needs besides.
pub open spec fn extra_install() -> Install {
    Install {
        told: "Irodori-TTS の追加 pip 依存をインストールしています ("@ + text::decimal(
            pins::extra_specs().len(),
        ) + " パッケージ、~数百MB)…"@,
        args: seq!["--upgrade"@] + pins::extra_specs(),
    }
}

fn extra_step() -> (r: InstallStep)
    ensures
        r@ == extra_install(),
{
    let names = irodori_extra_requirements();
    assert(names@.len() == text::str_texts(names@).len());
    let mut told = owned("Irodori-TTS の追加 pip 依存をインストールしています (");
    push_text(&mut told, decimal_text(names.len() as u64).as_str());
    push_text(&mut told, " パッケージ、~数百MB)…");
    let mut args: Vec<String> = Vec::new();
    args.push(owned("--upgrade"));
    assert(text::texts(args@) =~= seq!["--upgrade"@]);
    extend_names(&mut args, &names);
    InstallStep { told, args }
}

/// Installs the engine: what it needs first, then the two archives that it is
/// built on, then itself.
pub fn runtime_steps() -> (r: Vec<InstallStep>)
    ensures
        installs(r@) == seq![
            extra_install(),
            archive_install(SILENTCIPHER_TOLD@, SILENTCIPHER_ZIPBALL@),
            archive_install(DACVAE_TOLD@, DACVAE_ZIPBALL@),
            archive_install(IRODORI_TTS_TOLD@, IRODORI_TTS_ZIPBALL@),
        ],
{
    let mut out: Vec<InstallStep> = Vec::new();
    out.push(extra_step());
    out.push(archive_step(SILENTCIPHER_TOLD, SILENTCIPHER_ZIPBALL));
    out.push(archive_step(DACVAE_TOLD, DACVAE_ZIPBALL));
    out.push(archive_step(IRODORI_TTS_TOLD, IRODORI_TTS_ZIPBALL));
    assert(installs(out@) =~= seq![
        extra_install(),
        archive_install(SILENTCIPHER_TOLD@, SILENTCIPHER_ZIPBALL@),
        archive_install(DACVAE_TOLD@, DACVAE_ZIPBALL@),
        archive_install(IRODORI_TTS_TOLD@, IRODORI_TTS_ZIPBALL@),
    ]);
    out
}

pub const MODELS_TOLD: &'static str =
    "Aratako/Irodori-TTS の HF モデル (約 2〜4GB) を取得しています…";

/// The arguments with which the models are fetched: those of this build.
pub open spec fn fetch_args(sidecar: Seq<char>, root: Seq<char>) -> Seq<Seq<char>> {
    seq![sidecar, "--asset-dir"@, root, "--download-only"@] + pins::model_args(
        names::sorted_names(pins::models_now()),
        pins::models_now(),
        0,
    )
}

/// How the models are fetched: what Python is run with, or why it cannot be.
pub fn models_step(
    python_is_file: bool,
    sidecar_is_file: bool,
    python: &str,
    sidecar: &str,
    root: &str,
) -> (r: Result<Vec<String>, String>)
    ensures
        match r {
            Ok(args) => python_is_file && sidecar_is_file && text::texts(args@) == fetch_args(
                sidecar@,
                root@,
            ),
            Err(why) => if !python_is_file {
                why@ == "python.exe が見つかりません: "@ + python@
            } else {
                !sidecar_is_file && why@ == "sidecar.py が配置されていません: "@ + sidecar@
            },
        },
{
    if !python_is_file {
        return Err(no_python(python));
    }
    if !sidecar_is_file {
        let mut out = owned("sidecar.py が配置されていません: ");
        push_text(&mut out, sidecar);
        return Err(out);
    }
    let mut args: Vec<String> = Vec::new();
    args.push(owned(sidecar));
    args.push(owned("--asset-dir"));
    args.push(owned(root));
    args.push(owned("--download-only"));
    assert(text::texts(args@) =~= seq![sidecar@, "--asset-dir"@, root@, "--download-only"@]);
    let mut models = model_args_for_fetch();
    let ghost a = args@;
    let ghost m = models@;
    args.append(&mut models);
    assert(args@ =~= a + m);
    assert(text::texts(args@) =~= text::texts(a) + text::texts(m));
    Ok(args)
}

/// The steps of the first installation ask for everything that is required, each
/// once.
pub proof fn everything_required_is_installed()
    ensures
        pins::all_specs() == common_install().args + pins::torch_specs()
            + extra_install().args.skip(1),
        extra_install().args[0] == "--upgrade"@,
{
    assert(extra_install().args.skip(1) =~= pins::extra_specs());
}

} // verus!
