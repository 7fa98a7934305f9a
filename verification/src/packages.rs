//! Packages among the installed files: what belongs to one, how it is set aside
//! before it is installed anew, and how it is brought back.
use vstd::prelude::*;

use crate::json::read_json;
use crate::json;
use crate::status::is_metadata_of;
use crate::status;
use crate::text::{join, owned, push_text};
use crate::text;

verus! {

/// Those of the first `n` entries that are metadata of a version of the package.
pub open spec fn metadata_among(s: Seq<Seq<char>>, pkg: Seq<char>, n: int) -> Seq<Seq<char>>
    decreases n,
{
    if n <= 0 {
        Seq::empty()
    } else if status::is_dist_info(s[n - 1], pkg) {
        metadata_among(s, pkg, n - 1).push(s[n - 1])
    } else {
        metadata_among(s, pkg, n - 1)
    }
}

/// What belongs to a package: its directory, where there is one, then the
/// metadata of its versions.
pub open spec fn package_names(is_dir: bool, s: Seq<Seq<char>>, pkg: Seq<char>) -> Seq<Seq<char>> {
    (if is_dir {
        seq![pkg]
    } else {
        Seq::empty()
    }) + metadata_among(s, pkg, s.len() as int)
}

/// What belongs to a package.
pub fn package_entries(is_dir: bool, entries: &Vec<String>, pkg: &str) -> (r: Vec<String>)
    ensures
        text::texts(r@) == package_names(is_dir, text::texts(entries@), pkg@),
{
    let ghost s = text::texts(entries@);
    let ghost front: Seq<Seq<char>> = if is_dir {
        seq![pkg@]
    } else {
        Seq::empty()
    };
    let mut out: Vec<String> = Vec::new();
    if is_dir {
        out.push(owned(pkg));
    }
    let mut i: usize = 0;
    assert(text::texts(out@) =~= front + metadata_among(s, pkg@, 0));
    while i < entries.len()
        invariant
            i <= entries@.len(),
            s == text::texts(entries@),
            text::texts(out@) == front + metadata_among(s, pkg@, i as int),
        decreases entries@.len() - i,
    {
        let ghost before = text::texts(out@);
        assert(s[i as int] == entries@[i as int]@);
        if is_metadata_of(entries[i].as_str(), pkg) {
            out.push(owned(entries[i].as_str()));
            assert(text::texts(out@) =~= before.push(s[i as int]));
            assert(before.push(s[i as int]) =~= front + metadata_among(s, pkg@, i + 1));
        }
        i += 1;
    }
    out
}

/// An entry among the installed packages.
#[derive(Debug, PartialEq, Eq)]
pub struct SiteEntry {
    pub name: String,
    /// What the file says that tells where it was installed from, where there
    /// is one.
    pub direct_url: Option<String>,
}

/// Where metadata says that its package was installed from.
pub open spec fn origin_of(direct_url: Option<Seq<char>>) -> Seq<char> {
    match direct_url {
        None => NO_URL@,
        Some(t) => match json::json_document(t) {
            None => NO_URL@,
            Some(d) => match json::member(d, "url"@) {
                Some(json::Field::Text(u)) => u,
                _ => NO_URL@,
            },
        },
    }
}

pub const NO_URL: &'static str = "(url なし)";

/// What is told of the versions of a package among the first `n` entries.
pub open spec fn infos_of(s: Seq<SiteEntry>, pkg: Seq<char>, n: int) -> Seq<Seq<char>>
    decreases n,
{
    if n <= 0 {
        Seq::empty()
    } else if status::is_dist_info(s[n - 1].name@, pkg) {
        infos_of(s, pkg, n - 1).push(
            s[n - 1].name@ + " <- "@ + origin_of(text::opt_text(s[n - 1].direct_url)),
        )
    } else {
        infos_of(s, pkg, n - 1)
    }
}

fn describe_origin(direct_url: &Option<String>) -> (r: String)
    ensures
        r@ == origin_of(text::opt_text(*direct_url)),
{
    match direct_url {
        None => owned(NO_URL),
        Some(t) => match read_json(t.as_str()) {
            None => owned(NO_URL),
            Some(d) => match d.string("url") {
                Some(u) => owned(u.as_str()),
                None => owned(NO_URL),
            },
        },
    }
}

/// What is installed of a package, in one line.
pub fn describe_package(is_dir: bool, entries: &Vec<SiteEntry>, pkg: &str) -> (r: String)
    ensures
        r@ == "dir="@ + (if is_dir {
            "true"@
        } else {
            "false"@
        }) + " info=["@ + text::joined(
            infos_of(entries@, pkg@, entries@.len() as int),
            ", "@,
            infos_of(entries@, pkg@, entries@.len() as int).len() as int,
        ) + "]"@,
{
    let mut infos: Vec<String> = Vec::new();
    let mut i: usize = 0;
    assert(text::texts(infos@) =~= infos_of(entries@, pkg@, 0));
    while i < entries.len()
        invariant
            i <= entries@.len(),
            text::texts(infos@) == infos_of(entries@, pkg@, i as int),
        decreases entries@.len() - i,
    {
        let ghost before = text::texts(infos@);
        if is_metadata_of(entries[i].name.as_str(), pkg) {
            let mut line = owned(entries[i].name.as_str());
            push_text(&mut line, " <- ");
            push_text(&mut line, describe_origin(&entries[i].direct_url).as_str());
            let ghost said = line@;
            infos.push(line);
            assert(text::texts(infos@) =~= before.push(said));
        }
        i += 1;
    }
    assert(infos@.len() == text::texts(infos@).len());
    let mut out = owned("dir=");
    push_text(&mut out, if is_dir { "true" } else { "false" });
    push_text(&mut out, " info=[");
    push_text(&mut out, join(&infos, ", ").as_str());
    push_text(&mut out, "]");
    out
}

/// An entry among what was set aside.
#[derive(Debug, PartialEq, Eq)]
pub struct BackupEntry {
    pub name: String,
    pub is_dir: bool,
    /// It was set aside completely.
    pub complete: bool,
}

/// How one package is brought back: whether what is installed in its place is
/// removed first. Where it was not set aside completely, what is there is part
/// of the package as it was, and stays.
#[derive(Debug, PartialEq, Eq)]
pub struct RestoreStep {
    pub name: String,
    pub remove_first: bool,
}

/// The entries, among the first `n`, that hold a package that was set aside.
pub open spec fn asides(b: Seq<BackupEntry>, n: int) -> Seq<(Seq<char>, bool)>
    decreases n,
{
    if n <= 0 {
        Seq::empty()
    } else if b[n - 1].is_dir {
        asides(b, n - 1).push((b[n - 1].name@, b[n - 1].complete))
    } else {
        asides(b, n - 1)
    }
}

/// What restore steps say.
pub open spec fn step_views(s: Seq<RestoreStep>) -> Seq<(Seq<char>, bool)> {
    Seq::new(s.len(), |i: int| (s[i].name@, s[i].remove_first))
}

/// How what was set aside is brought back: directories only, for the marks and
/// notes beside them are no packages.
pub fn restore_steps(entries: &Vec<BackupEntry>) -> (r: Vec<RestoreStep>)
    ensures
        step_views(r@) == asides(entries@, entries@.len() as int),
{
    let mut out: Vec<RestoreStep> = Vec::new();
    let mut i: usize = 0;
    assert(step_views(out@) =~= Seq::<(Seq<char>, bool)>::empty());
    while i < entries.len()
        invariant
            i <= entries@.len(),
            step_views(out@) == asides(entries@, i as int),
        decreases entries@.len() - i,
    {
        let ghost prior = step_views(out@);
        if entries[i].is_dir {
            out.push(
                RestoreStep {
                    name: owned(entries[i].name.as_str()),
                    remove_first: entries[i].complete,
                },
            );
            assert(step_views(out@) =~= prior.push(
                (entries@[i as int].name@, entries@[i as int].complete),
            ));
        }
        i += 1;
    }
    out
}

/// The entry is the directory of the package or metadata of one of its versions.
pub open spec fn belongs(entry: Seq<char>, pkg: Seq<char>) -> bool {
    entry == pkg || status::is_dist_info(entry, pkg)
}

/// What is listed is what is there, and the package has a directory where it says
/// so.
pub open spec fn lists<T>(
    site: Map<Seq<char>, T>,
    listed: Seq<Seq<char>>,
    is_dir: bool,
    pkg: Seq<char>,
) -> bool {
    &&& listed.to_set() == site.dom()
    &&& is_dir == site.dom().contains(pkg)
}

/// What is there once what was set aside has been brought back, with what is
/// installed in its place removed first or not.
pub open spec fn brought_back<T>(
    now: Map<Seq<char>, T>,
    listed: Seq<Seq<char>>,
    is_dir: bool,
    pkg: Seq<char>,
    aside: Map<Seq<char>, T>,
    remove_first: bool,
) -> Map<Seq<char>, T> {
    let kept = if remove_first {
        now.remove_keys(package_names(is_dir, listed, pkg).to_set())
    } else {
        now
    };
    kept.union_prefer_right(aside)
}

proof fn lemma_metadata_among(s: Seq<Seq<char>>, pkg: Seq<char>, n: int, e: Seq<char>)
    requires
        0 <= n <= s.len(),
    ensures
        metadata_among(s, pkg, n).contains(e) <==> (status::is_dist_info(e, pkg) && exists|i: int|
            0 <= i < n && #[trigger] s[i] == e),
    decreases n,
{
    if n > 0 {
        lemma_metadata_among(s, pkg, n - 1, e);
        let front = metadata_among(s, pkg, n - 1);
        if status::is_dist_info(s[n - 1], pkg) {
            let whole = front.push(s[n - 1]);
            if front.contains(e) {
                let i = choose|i: int| 0 <= i < front.len() && front[i] == e;
                assert(whole[i] == e);
            }
            if s[n - 1] == e {
                assert(whole[front.len() as int] == e);
            }
            if whole.contains(e) {
                let i = choose|i: int| 0 <= i < whole.len() && whole[i] == e;
                if i < front.len() {
                    assert(front[i] == e);
                } else {
                    assert(s[n - 1] == e);
                }
            }
        }
    } else {
        assert(!metadata_among(s, pkg, n).contains(e));
    }
}

proof fn lemma_package_names<T>(
    site: Map<Seq<char>, T>,
    listed: Seq<Seq<char>>,
    is_dir: bool,
    pkg: Seq<char>,
    e: Seq<char>,
)
    requires
        lists(site, listed, is_dir, pkg),
    ensures
        package_names(is_dir, listed, pkg).contains(e) <==> (site.dom().contains(e) && belongs(
            e,
            pkg,
        )),
{
    let meta = metadata_among(listed, pkg, listed.len() as int);
    let names = package_names(is_dir, listed, pkg);
    lemma_metadata_among(listed, pkg, listed.len() as int, e);
    assert(listed.to_set().contains(e) <==> listed.contains(e));
    let front: Seq<Seq<char>> = if is_dir {
        seq![pkg]
    } else {
        Seq::empty()
    };
    if meta.contains(e) {
        let i = choose|i: int| 0 <= i < meta.len() && meta[i] == e;
        assert(names[front.len() + i] == e);
    }
    if is_dir && e == pkg {
        assert(names[0] == e);
    }
    if names.contains(e) {
        let i = choose|i: int| 0 <= i < names.len() && names[i] == e;
        if i < front.len() {
            assert(front[i] == e);
        } else {
            assert(meta[i - front.len()] == e);
        }
    }
}

/// A package that was set aside completely is brought back just as it was, and
/// with it everything that was installed, whatever an install left behind in its
/// place: of another version, half-written, or nothing at all. The install may
/// have changed no other package.
pub proof fn an_install_is_undone<T>(
    site: Map<Seq<char>, T>,
    listed: Seq<Seq<char>>,
    is_dir: bool,
    pkg: Seq<char>,
    now: Map<Seq<char>, T>,
    listed_now: Seq<Seq<char>>,
    is_dir_now: bool,
)
    requires
        lists(site, listed, is_dir, pkg),
        lists(now, listed_now, is_dir_now, pkg),
        forall|e: Seq<char>|
            !belongs(e, pkg) ==> (#[trigger] now.dom().contains(e) <==> site.dom().contains(e)),
        forall|e: Seq<char>|
            !belongs(e, pkg) && site.dom().contains(e) ==> #[trigger] now[e] == site[e],
    ensures
        brought_back(
            now,
            listed_now,
            is_dir_now,
            pkg,
            site.restrict(package_names(is_dir, listed, pkg).to_set()),
            true,
        ) == site,
{
    let names = package_names(is_dir, listed, pkg).to_set();
    let names_now = package_names(is_dir_now, listed_now, pkg).to_set();
    let aside = site.restrict(names);
    let back = brought_back(now, listed_now, is_dir_now, pkg, aside, true);
    assert forall|e: Seq<char>|
        (#[trigger] back.dom().contains(e) <==> site.dom().contains(e)) && (site.dom().contains(e)
            ==> back[e] == site[e]) by {
        lemma_package_names(site, listed, is_dir, pkg, e);
        lemma_package_names(now, listed_now, is_dir_now, pkg, e);
        assert(names.contains(e) <==> package_names(is_dir, listed, pkg).contains(e));
        assert(names_now.contains(e) <==> package_names(is_dir_now, listed_now, pkg).contains(e));
        if !belongs(e, pkg) && site.dom().contains(e) {
            assert(now[e] == site[e]);
        }
    }
    assert(back =~= site);
}

/// A package of which only part could be set aside is brought back just as it
/// was, where what is still in its place is left alone.
pub proof fn a_half_done_aside_is_undone<T>(
    site: Map<Seq<char>, T>,
    listed: Seq<Seq<char>>,
    is_dir: bool,
    pkg: Seq<char>,
    moved: int,
    listed_now: Seq<Seq<char>>,
    is_dir_now: bool,
)
    requires
        lists(site, listed, is_dir, pkg),
        0 <= moved <= package_names(is_dir, listed, pkg).len(),
    ensures
        ({
            let part = package_names(is_dir, listed, pkg).take(moved).to_set();
            brought_back(
                site.remove_keys(part),
                listed_now,
                is_dir_now,
                pkg,
                site.restrict(part),
                false,
            ) == site
        }),
{
    let part = package_names(is_dir, listed, pkg).take(moved).to_set();
    assert(site.remove_keys(part).union_prefer_right(site.restrict(part)) =~= site);
}

/// No entry belongs to two packages whose names have no dash: setting one of
/// them aside, or removing it, leaves the other as it is.
pub proof fn packages_share_nothing(p: Seq<char>, q: Seq<char>, e: Seq<char>)
    requires
        !p.contains('-'),
        !q.contains('-'),
        belongs(e, p),
        belongs(e, q),
    ensures
        p == q,
{
    reveal_strlit("-");
    if status::is_dist_info(e, p) {
        lemma_first_dash(e, p);
    }
    if status::is_dist_info(e, q) {
        lemma_first_dash(e, q);
    }
    if status::is_dist_info(e, p) && status::is_dist_info(e, q) {
        if p.len() < q.len() {
            assert(q[p.len() as int] == '-');
        } else if q.len() < p.len() {
            assert(p[q.len() as int] == '-');
        }
        assert(p =~= q);
    } else if status::is_dist_info(e, p) {
        assert(q[p.len() as int] == '-');
    } else if status::is_dist_info(e, q) {
        assert(p[q.len() as int] == '-');
    }
}

proof fn lemma_first_dash(e: Seq<char>, p: Seq<char>)
    requires
        status::is_dist_info(e, p),
    ensures
        e.len() > p.len(),
        e[p.len() as int] == '-',
        forall|i: int| 0 <= i < p.len() ==> e[i] == #[trigger] p[i],
{
    reveal_strlit("-");
    let head = p + "-"@;
    assert(head.is_prefix_of(e));
    assert(head =~= e.subrange(0, head.len() as int));
    assert(head[p.len() as int] == '-');
    assert forall|i: int| 0 <= i < p.len() implies e[i] == #[trigger] p[i] by {
        assert(head[i] == p[i]);
        assert(e.subrange(0, head.len() as int)[i] == e[i]);
    }
    assert(e.subrange(0, head.len() as int)[p.len() as int] == e[p.len() as int]);
}

/// What is told of what could not be brought back from where it was set aside.
pub fn describe_unrestored(failed: &Vec<String>) -> (r: Option<String>)
    ensures
        text::opt_text(r) == (if failed@.len() == 0 {
            None
        } else {
            Some(
                "退避を戻せません: "@ + text::joined(
                    text::texts(failed@),
                    ", "@,
                    failed@.len() as int,
                ),
            )
        }),
{
    if failed.len() == 0 {
        return None;
    }
    let mut out = owned("退避を戻せません: ");
    push_text(&mut out, join(failed, ", ").as_str());
    Some(out)
}

proof fn lemma_metadata(s: Seq<Seq<char>>, pkg: Seq<char>, n: int)
    requires
        0 <= n <= s.len(),
    ensures
        metadata_among(s, pkg, n) == s.take(n).filter(|e: Seq<char>| status::is_dist_info(e, pkg)),
    decreases n,
{
    reveal(Seq::filter);
    if n > 0 {
        lemma_metadata(s, pkg, n - 1);
        assert(s.take(n).drop_last() =~= s.take(n - 1));
    }
}

/// What belongs to a package is its directory, where there is one, and all of its
/// metadata among the entries, in their order; nothing else does.
pub proof fn a_package_is_its_directory_and_metadata(
    is_dir: bool,
    s: Seq<Seq<char>>,
    pkg: Seq<char>,
)
    ensures
        is_dir ==> package_names(is_dir, s, pkg) == seq![pkg] + s.filter(
            |x: Seq<char>| (pkg + "-"@).is_prefix_of(x) && ".dist-info"@.is_suffix_of(x),
        ),
        !is_dir ==> package_names(is_dir, s, pkg) == s.filter(
            |x: Seq<char>| (pkg + "-"@).is_prefix_of(x) && ".dist-info"@.is_suffix_of(x),
        ),
{
    let f = |x: Seq<char>| (pkg + "-"@).is_prefix_of(x) && ".dist-info"@.is_suffix_of(x);
    let g = |x: Seq<char>| status::is_dist_info(x, pkg);
    lemma_metadata(s, pkg, s.len() as int);
    assert(s.take(s.len() as int) =~= s);
    assert(f =~= g);
    assert(Seq::<Seq<char>>::empty() + s.filter(f) =~= s.filter(f));
}

/// What was set aside is brought back, every directory of it and in its order, each
/// after what was installed in its place is removed where it was set aside
/// completely; a file beside them is not.
pub proof fn everything_set_aside_is_brought_back(b: Seq<BackupEntry>, n: int)
    requires
        0 <= n <= b.len(),
    ensures
        asides(b, n) == b.take(n).filter(|x: BackupEntry| x.is_dir).map_values(
            |x: BackupEntry| (x.name@, x.complete),
        ),
    decreases n,
{
    reveal(Seq::filter);
    let f = |x: BackupEntry| x.is_dir;
    let g = |x: BackupEntry| (x.name@, x.complete);
    if n > 0 {
        everything_set_aside_is_brought_back(b, n - 1);
        assert(b.take(n).drop_last() =~= b.take(n - 1));
        let rest = b.take(n - 1).filter(f);
        if b[n - 1].is_dir {
            assert(b.take(n).filter(f) =~= rest.push(b[n - 1]));
            assert(rest.push(b[n - 1]).map_values(g) =~= rest.map_values(g).push(g(b[n - 1])));
        }
        assert(asides(b, n) =~= b.take(n).filter(f).map_values(g));
    } else {
        assert(asides(b, n) =~= b.take(n).filter(f).map_values(g));
    }
}

/// Of a package, each of its metadata is described, in their order, by its name and
/// by where it was installed from.
pub proof fn all_metadata_is_described(s: Seq<SiteEntry>, pkg: Seq<char>, n: int)
    requires
        0 <= n <= s.len(),
    ensures
        infos_of(s, pkg, n) == s.take(n).filter(
            |x: SiteEntry| status::is_dist_info(x.name@, pkg),
        ).map_values(
            |x: SiteEntry| x.name@ + " <- "@ + origin_of(text::opt_text(x.direct_url)),
        ),
    decreases n,
{
    reveal(Seq::filter);
    let f = |x: SiteEntry| status::is_dist_info(x.name@, pkg);
    let g = |x: SiteEntry| x.name@ + " <- "@ + origin_of(text::opt_text(x.direct_url));
    if n > 0 {
        all_metadata_is_described(s, pkg, n - 1);
        assert(s.take(n).drop_last() =~= s.take(n - 1));
        let rest = s.take(n - 1).filter(f);
        if f(s[n - 1]) {
            assert(s.take(n).filter(f) =~= rest.push(s[n - 1]));
            assert(rest.push(s[n - 1]).map_values(g) =~= rest.map_values(g).push(g(s[n - 1])));
        }
        assert(infos_of(s, pkg, n) =~= s.take(n).filter(f).map_values(g));
    } else {
        assert(infos_of(s, pkg, n) =~= s.take(n).filter(f).map_values(g));
    }
}

/// Where a package came from is what its metadata gives as its address, where that is a
/// text.
pub proof fn the_origin_is_the_address_given(t: Seq<char>, d: json::Doc, u: Seq<char>)
    requires
        json::json_document(t) == Some(d),
        json::member(d, "url"@) == Some(json::Field::Text(u)),
    ensures
        origin_of(Some(t)) == u,
{
}

} // verus!
