//! Whether the engine is installed, and what of it is out of date.
//!
//! That it can be used and that it is up to date are two questions: an engine
//! that is out of date can still be used.
use vstd::prelude::*;

use crate::names::{insert_name, NameMap};
use crate::names;
use crate::paths::has_entry;
use crate::paths;
use crate::pins::{
    current_models, current_pins, current_requirements, pinned_python_version,
    v054_baseline_models, v054_baseline_requirements, InstalledStamp,
};
use crate::pins;
use crate::text::{ends_with, owned, push_text, same, starts_with};
use crate::text;

verus! {

/// The name is out of date: what is recorded under it is not what is wanted now.
pub open spec fn is_outdated(
    recorded: Map<Seq<char>, Seq<char>>,
    current: Map<Seq<char>, Seq<char>>,
    k: Seq<char>,
) -> bool {
    current.contains_key(k) && names::at(recorded, k) != names::at(current, k)
}

/// The names that are out of date, in ascending order.
pub fn outdated_pins(recorded: &NameMap, current: &NameMap) -> (r: Vec<String>)
    requires
        recorded.wf(),
        current.wf(),
    ensures
        names::ascending(text::texts(r@)),
        forall|k: Seq<char>|
            #[trigger] text::texts(r@).contains(k) <==> is_outdated(recorded@, current@, k),
{
    let list = current.names();
    let ghost n = text::texts(list@);
    let mut out: Vec<String> = Vec::new();
    let mut i: usize = 0;
    while i < list.len()
        invariant
            i <= list@.len(),
            recorded.wf(),
            current.wf(),
            n == text::texts(list@),
            forall|k: Seq<char>| n.contains(k) <==> current@.contains_key(k),
            names::ascending(text::texts(out@)),
            forall|k: Seq<char>|
                #[trigger] text::texts(out@).contains(k) <==> (exists|j: int|
                    0 <= j < i && #[trigger] n[j] == k) && is_outdated(recorded@, current@, k),
        decreases list@.len() - i,
    {
        let name = list[i].as_str();
        assert(n[i as int] == name@);
        assert(n.contains(name@));
        let differs = match (recorded.get(name), current.get(name)) {
            (Some(a), Some(b)) => !same(a.as_str(), b.as_str()),
            (None, None) => false,
            _ => true,
        };
        if differs {
            insert_name(&mut out, name);
        }
        i += 1;
    }
    proof {
        assert forall|k: Seq<char>|
            #[trigger] text::texts(out@).contains(k) <==> is_outdated(recorded@, current@, k) by {
            if is_outdated(recorded@, current@, k) {
                assert(n.contains(k));
                let j = choose|j: int| 0 <= j < n.len() && n[j] == k;
                assert(n[j] == k);
            }
        }
    }
    out
}

/// What a record that says nothing of packages, or of models, stands for.
pub open spec fn effective(
    recorded: Map<Seq<char>, Seq<char>>,
    baseline: Map<Seq<char>, Seq<char>>,
) -> Map<Seq<char>, Seq<char>> {
    if recorded == Map::<Seq<char>, Seq<char>>::empty() {
        baseline
    } else {
        recorded
    }
}

/// The names that are out of date, where a record that says nothing stands for
/// the baseline: neither for nothing, which would ask for everything anew, nor
/// for what is wanted now, which would hide every change.
pub fn outdated_section(recorded: &NameMap, baseline: &NameMap, current: &NameMap) -> (r: Vec<String>)
    requires
        recorded.wf(),
        baseline.wf(),
        current.wf(),
    ensures
        names::ascending(text::texts(r@)),
        forall|k: Seq<char>|
            #[trigger] text::texts(r@).contains(k) <==> is_outdated(
                effective(recorded@, baseline@),
                current@,
                k,
            ),
{
    if recorded.is_empty() {
        outdated_pins(baseline, current)
    } else {
        outdated_pins(recorded, current)
    }
}

/// What is installed is known not to be what is pinned.
pub open spec fn is_stale(installed: Option<Seq<char>>, pinned: Option<Seq<char>>) -> bool {
    installed is Some && pinned is Some && installed != pinned
}

/// Whether Python is known not to be the one that is pinned. Where it could
/// not be asked, it is not: to replace it would mean to install everything anew.
pub fn python_is_stale(installed: &Option<String>, pinned: &Option<String>) -> (r: bool)
    ensures
        r == is_stale(text::opt_text(*installed), text::opt_text(*pinned)),
{
    match (installed, pinned) {
        (Some(i), Some(p)) => !same(i.as_str(), p.as_str()),
        _ => false,
    }
}

/// The record does not say that the pinned Python was installed.
pub open spec fn python_unrecorded(recorded: Map<Seq<char>, Seq<char>>) -> bool {
    names::at(recorded, "python"@) != names::at(pins::pins_now(), "python"@)
}

/// Whether Python has to be asked which version it is.
pub fn should_ask_python(recorded: &NameMap) -> (r: bool)
    requires
        recorded.wf(),
    ensures
        r == python_unrecorded(recorded@),
{
    let current = current_pins();
    match (recorded.get("python"), current.get("python")) {
        (Some(a), Some(b)) => !same(a.as_str(), b.as_str()),
        (None, None) => false,
        _ => true,
    }
}

/// The name is out of date, by the record and what Python says of itself.
pub open spec fn is_outdated_now(
    recorded: Map<Seq<char>, Seq<char>>,
    reqs: Map<Seq<char>, Seq<char>>,
    models: Map<Seq<char>, Seq<char>>,
    python: Option<Seq<char>>,
    k: Seq<char>,
) -> bool {
    if k == "python"@ {
        python_unrecorded(recorded) && is_stale(python, pins::url_version(pins::PYTHON_URL@))
    } else {
        ||| is_outdated(recorded, pins::pins_now(), k)
        ||| is_outdated(
            effective(reqs, pins::baseline_requirements()),
            pins::requirements_now(),
            k,
        )
        ||| is_outdated(effective(models, pins::baseline_models()), pins::models_now(), k)
    }
}

/// Adds those of `more` that are not Python to names in ascending order.
fn add_all_but_python(out: &mut Vec<String>, more: &Vec<String>)
    requires
        names::ascending(text::texts(old(out)@)),
    ensures
        names::ascending(text::texts(final(out)@)),
        forall|k: Seq<char>|
            #[trigger] text::texts(final(out)@).contains(k) <==> text::texts(old(out)@).contains(k) || (k
                != "python"@ && text::texts(more@).contains(k)),
{
    let ghost m = text::texts(more@);
    let ghost start = text::texts(out@);
    let mut i: usize = 0;
    while i < more.len()
        invariant
            i <= more@.len(),
            m == text::texts(more@),
            names::ascending(text::texts(out@)),
            forall|k: Seq<char>|
                #[trigger] text::texts(out@).contains(k) <==> start.contains(k) || (k != "python"@ && exists|
                    j: int,
                |
                    0 <= j < i && #[trigger] m[j] == k),
        decreases more@.len() - i,
    {
        let ghost prior = text::texts(out@);
        assert(m[i as int] == more@[i as int]@);
        if !same(more[i].as_str(), "python") {
            insert_name(out, more[i].as_str());
        }
        proof {
            assert forall|k: Seq<char>|
                #[trigger] text::texts(out@).contains(k) <==> start.contains(k) || (k != "python"@ && exists|
                    j: int,
                |
                    0 <= j < i + 1 && #[trigger] m[j] == k) by {
                if k != "python"@ && (exists|j: int| 0 <= j < i + 1 && #[trigger] m[j] == k) {
                    let j = choose|j: int| 0 <= j < i + 1 && #[trigger] m[j] == k;
                    if j < i {
                        assert(prior.contains(k));
                    }
                }
                if k == m[i as int] && k != "python"@ {
                    assert(m[i as int] == k);
                }
                if prior.contains(k) && !start.contains(k) {
                    let j = choose|j: int| 0 <= j < i && #[trigger] m[j] == k;
                    assert(0 <= j < i + 1 && m[j] == k);
                }
            }
        }
        i += 1;
    }
    proof {
        assert forall|k: Seq<char>|
            #[trigger] text::texts(out@).contains(k) <==> start.contains(k) || (k != "python"@ && m.contains(
                k,
            )) by {
            if m.contains(k) {
                let j = choose|j: int| 0 <= j < m.len() && m[j] == k;
                assert(m[j] == k);
            }
        }
    }
}

/// The names that are out of date, in ascending order. Of Python it is not the
/// record that decides but what Python says of itself, which is asked for only
/// where the record does not say that the pinned one was installed.
pub fn outdated_list(
    recorded: &NameMap,
    recorded_reqs: &NameMap,
    recorded_models: &NameMap,
    installed_python: &Option<String>,
) -> (r: Vec<String>)
    requires
        recorded.wf(),
        recorded_reqs.wf(),
        recorded_models.wf(),
    ensures
        names::ascending(text::texts(r@)),
        forall|k: Seq<char>|
            #[trigger] text::texts(r@).contains(k) <==> is_outdated_now(
                recorded@,
                recorded_reqs@,
                recorded_models@,
                text::opt_text(*installed_python),
                k,
            ),
{
    let mut out: Vec<String> = Vec::new();
    let pins = outdated_pins(recorded, &current_pins());
    let reqs = outdated_section(
        recorded_reqs,
        &v054_baseline_requirements(),
        &current_requirements(),
    );
    let models = outdated_section(recorded_models, &v054_baseline_models(), &current_models());
    assert(text::texts(out@) =~= Seq::<Seq<char>>::empty());
    add_all_but_python(&mut out, &pins);
    add_all_but_python(&mut out, &reqs);
    add_all_but_python(&mut out, &models);
    if should_ask_python(recorded) && python_is_stale(installed_python, &pinned_python_version()) {
        insert_name(&mut out, "python");
    }
    out
}

/// The record with the baseline where it says nothing of packages or of models.
pub open spec fn filled(
    s: pins::Stamp,
    reqs: Map<Seq<char>, Seq<char>>,
    models: Map<Seq<char>, Seq<char>>,
) -> pins::Stamp {
    pins::Stamp {
        requirements: effective(s.requirements, reqs),
        models: effective(s.models, models),
        ..s
    }
}

/// The record with the baseline where it says nothing of packages or of
/// models. Where it says anything of them, it is left as it is.
pub fn baseline_filled(
    stamp: &InstalledStamp,
    baseline_requirements: &NameMap,
    baseline_models: &NameMap,
) -> (r: InstalledStamp)
    requires
        stamp.wf(),
        baseline_requirements.wf(),
        baseline_models.wf(),
    ensures
        r.wf(),
        r@ == filled(stamp@, baseline_requirements@, baseline_models@),
{
    let mut out = stamp.copy();
    if out.requirements.is_empty() {
        out.requirements = baseline_requirements.copy();
    }
    if out.models.is_empty() {
        out.models = baseline_models.copy();
    }
    out
}

/// Fills a record up with the baseline, and says whether that changed it, so
/// that it has to be written.
pub fn backfill_baseline(stamp: &InstalledStamp) -> (r: (InstalledStamp, bool))
    requires
        stamp.wf(),
    ensures
        r.0.wf(),
        r.0@ == filled(stamp@, pins::baseline_requirements(), pins::baseline_models()),
        r.1 == (r.0@.requirements != stamp@.requirements || r.0@.models != stamp@.models),
{
    let out = baseline_filled(stamp, &v054_baseline_requirements(), &v054_baseline_models());
    let changed = !out.requirements.same_as(&stamp.requirements) || !out.models.same_as(
        &stamp.models,
    );
    (out, changed)
}

/// How the engine stands.
#[derive(Debug, PartialEq, Eq)]
pub struct IrodoriStatus {
    /// Everything that it needs is there.
    pub present: bool,
    /// There is a record of what was installed.
    pub has_record: bool,
    /// What is recorded is what is wanted now.
    pub up_to_date: bool,
    /// What is not, in ascending order.
    pub outdated: Vec<String>,
    /// The versions that were found installed.
    pub resolved: NameMap,
}

/// How the engine stands, given whether everything is there, the record, and
/// what Python says of itself.
pub fn status(
    present: bool,
    stamp: &Option<InstalledStamp>,
    installed_python: &Option<String>,
) -> (r: IrodoriStatus)
    requires
        pins::opt_stamp_wf(*stamp),
    ensures
        r.resolved.wf(),
        r.present == present,
        r.has_record == stamp is Some,
        names::ascending(text::texts(r.outdated@)),
        (match *stamp {
            None => {
                &&& !r.up_to_date
                &&& r.resolved@ == Map::<Seq<char>, Seq<char>>::empty()
                &&& forall|k: Seq<char>|
                    #[trigger] text::texts(r.outdated@).contains(k) <==> present && is_outdated_now(
                        Map::empty(),
                        Map::empty(),
                        Map::empty(),
                        text::opt_text(*installed_python),
                        k,
                    )
            },
            Some(s) => {
                let f = filled(s@, pins::baseline_requirements(), pins::baseline_models());
                &&& r.up_to_date == (r.outdated@.len() == 0)
                &&& r.resolved@ == s@.resolved
                &&& forall|k: Seq<char>|
                    #[trigger] text::texts(r.outdated@).contains(k) <==> is_outdated_now(
                        f.pins,
                        f.requirements,
                        f.models,
                        text::opt_text(*installed_python),
                        k,
                    )
            },
        }),
{
    match stamp {
        None => {
            let empty = NameMap::new();
            let outdated = if present {
                outdated_list(&empty, &empty, &empty, installed_python)
            } else {
                Vec::new()
            };
            proof {
                if !present {
                    assert(text::texts(outdated@) =~= Seq::<Seq<char>>::empty());
                }
            }
            IrodoriStatus {
                present,
                has_record: false,
                up_to_date: false,
                outdated,
                resolved: NameMap::new(),
            }
        },
        Some(s) => {
            let (full, _) = backfill_baseline(s);
            let outdated = outdated_list(
                &full.pins,
                &full.requirements,
                &full.models,
                installed_python,
            );
            IrodoriStatus {
                present,
                has_record: true,
                up_to_date: outdated.len() == 0,
                outdated,
                resolved: full.resolved.copy(),
            }
        },
    }
}

/// What is found of one package: a directory of its name, a module file of its
/// name, and the names of everything beside it.
#[derive(Debug, PartialEq, Eq)]
pub struct SiteListing {
    /// The entries that are directories.
    pub dirs: Vec<String>,
    /// The entries that are files.
    pub files: Vec<String>,
    /// The names of all entries that have a readable one.
    pub entries: Vec<String>,
}

/// The entry is the metadata of some version of the package.
pub open spec fn is_dist_info(entry: Seq<char>, name: Seq<char>) -> bool {
    (name + "-"@).is_prefix_of(entry) && ".dist-info"@.is_suffix_of(entry)
}

/// Whether the entry is the metadata of some version of the package.
pub fn is_metadata_of(entry: &str, name: &str) -> (r: bool)
    ensures
        r == is_dist_info(entry@, name@),
{
    let mut prefix = owned(name);
    push_text(&mut prefix, "-");
    starts_with(entry, prefix.as_str()) && ends_with(entry, ".dist-info")
}

/// The package is there: as a directory, as a module file, or by its metadata.
pub open spec fn is_there(s: SiteListing, name: Seq<char>) -> bool {
    ||| paths::holds_entry(text::texts(s.dirs@), name)
    ||| paths::holds_entry(text::texts(s.files@), name + ".py"@)
    ||| exists|i: int|
        0 <= i < s.entries@.len() && is_dist_info(#[trigger] s.entries@[i]@, name)
}

/// Whether the package is there.
pub fn has_package(site: &SiteListing, name: &str) -> (r: bool)
    ensures
        r == is_there(*site, name@),
{
    if has_entry(&site.dirs, name) {
        return true;
    }
    let mut module = owned(name);
    push_text(&mut module, ".py");
    if has_entry(&site.files, module.as_str()) {
        return true;
    }
    let mut i: usize = 0;
    while i < site.entries.len()
        invariant
            i <= site.entries@.len(),
            forall|j: int| 0 <= j < i ==> !is_dist_info(#[trigger] site.entries@[j]@, name@),
        decreases site.entries@.len() - i,
    {
        if is_metadata_of(site.entries[i].as_str(), name) {
            assert(is_dist_info(site.entries@[i as int]@, name@));
            return true;
        }
        i += 1;
    }
    false
}

/// The packages that the engine is made of are there.
pub open spec fn all_there(s: SiteListing) -> bool {
    &&& is_there(s, "torch"@)
    &&& is_there(s, "fastapi"@)
    &&& is_there(s, "uvicorn"@)
    &&& is_there(s, "huggingface_hub"@)
    &&& is_there(s, "irodori_tts"@)
}

/// Whether everything that the engine needs is there: Python, and the packages
/// that it is made of. `site` is what lies among the packages, where there is
/// such a place.
pub fn assets_ready(python_is_file: bool, site: &Option<SiteListing>) -> (r: bool)
    ensures
        r == (python_is_file && site is Some && all_there(site->0)),
{
    if !python_is_file {
        return false;
    }
    match site {
        None => false,
        Some(s) => has_package(s, "torch") && has_package(s, "fastapi") && has_package(
            s,
            "uvicorn",
        ) && has_package(s, "huggingface_hub") && has_package(s, "irodori_tts"),
    }
}

/// What was just recorded is up to date: a name that was installed is out of
/// date neither as a pinned source nor as a package nor as a model.
pub proof fn installed_names_are_up_to_date(
    recorded: Map<Seq<char>, Seq<char>>,
    current: Map<Seq<char>, Seq<char>>,
    installed: Seq<Seq<char>>,
    k: Seq<char>,
)
    requires
        installed.contains(k),
    ensures
        !is_outdated(names::merged(recorded, current, installed), current, k),
{
}

/// What was not installed stays as out of date as it was: the record says
/// nothing new of it.
pub proof fn other_names_keep_their_record(
    recorded: Map<Seq<char>, Seq<char>>,
    current: Map<Seq<char>, Seq<char>>,
    installed: Seq<Seq<char>>,
    k: Seq<char>,
)
    requires
        !installed.contains(k),
    ensures
        names::at(names::merged(recorded, current, installed), k) == names::at(recorded, k),
        is_outdated(names::merged(recorded, current, installed), current, k) == is_outdated(
            recorded,
            current,
            k,
        ),
{
}

/// Filling a record up with the baseline does not change what is out of date,
/// and filling it up again changes nothing.
pub proof fn filling_changes_no_verdict(
    s: pins::Stamp,
    reqs: Map<Seq<char>, Seq<char>>,
    models: Map<Seq<char>, Seq<char>>,
    current: Map<Seq<char>, Seq<char>>,
    k: Seq<char>,
)
    ensures
        is_outdated(effective(filled(s, reqs, models).requirements, reqs), current, k)
            == is_outdated(effective(s.requirements, reqs), current, k),
        is_outdated(effective(filled(s, reqs, models).models, models), current, k) == is_outdated(
            effective(s.models, models),
            current,
            k,
        ),
        filled(filled(s, reqs, models), reqs, models) == filled(s, reqs, models),
{
}

/// After a first installation whose Python was found to be the pinned one,
/// nothing is out of date.
pub proof fn nothing_outdated_after_first_installation(
    before: Option<pins::Stamp>,
    installed: Seq<Seq<char>>,
    found: Map<Seq<char>, Seq<char>>,
    now: i64,
    k: Seq<char>,
)
    requires
        forall|n: Seq<char>| installed.contains(n) <==> pins::is_installed_first(n),
    ensures
        ({
            let python = pins::url_version(pins::PYTHON_URL@);
            let s = pins::stamp_after(before, installed, found, python, now);
            !is_outdated_now(s.pins, s.requirements, s.models, python, k)
        }),
{
    pins::the_pin_names_its_version();
    let python = pins::url_version(pins::PYTHON_URL@);
    let s = pins::stamp_after(before, installed, found, python, now);
    if k != "python"@ {
        assert(pins::is_installed_first(k) <==> installed.contains(k));
        if pins::pins_now().contains_key(k) {
            assert(pins::pin_of(k) is Some);
            assert(installed.contains(k));
        }
        if pins::requirements_now().contains_key(k) {
            assert(installed.contains(k));
            assert(s.requirements.contains_key(k));
        }
        if pins::models_now().contains_key(k) {
            assert(installed.contains(k));
            assert(s.models.contains_key(k));
        }
    }
}

/// Whatever is recorded otherwise than it is wanted now, or not at all, is out of
/// date, and nothing else is: pinned sources, requirements and models alike. Where
/// the record has no section for requirements or for models, those of the first
/// releases count as recorded. Python is asked for its version instead.
pub proof fn out_of_date_iff_not_as_wanted(
    recorded: Map<Seq<char>, Seq<char>>,
    reqs: Map<Seq<char>, Seq<char>>,
    models: Map<Seq<char>, Seq<char>>,
    python: Option<Seq<char>>,
    k: Seq<char>,
)
    ensures
        k != "python"@ && reqs.dom().len() > 0 && reqs.dom().finite() && models.dom().len() > 0
            && models.dom().finite() ==> (is_outdated_now(recorded, reqs, models, python, k) <==> (
        pins::pins_now().contains_key(k) && names::at(recorded, k) != Some(pins::pins_now()[k]))
            || (pins::requirements_now().contains_key(k) && names::at(reqs, k) != Some(
            pins::requirements_now()[k],
        )) || (pins::models_now().contains_key(k) && names::at(models, k) != Some(
            pins::models_now()[k],
        ))),
        k != "python"@ ==> (is_outdated_now(recorded, Map::empty(), Map::empty(), python, k) <==> (
        pins::pins_now().contains_key(k) && names::at(recorded, k) != Some(pins::pins_now()[k]))
            || (pins::requirements_now().contains_key(k) && names::at(
            pins::baseline_requirements(),
            k,
        ) != Some(pins::requirements_now()[k])) || (pins::models_now().contains_key(k) && names::at(
            pins::baseline_models(),
            k,
        ) != Some(pins::models_now()[k]))),
        is_outdated_now(recorded, reqs, models, python, "python"@) <==> python is Some && python
            != Some(pins::PYTHON_VERSION@) && names::at(recorded, "python"@) != Some(
            pins::PYTHON_URL@,
        ),
{
    pins::the_pin_names_its_version();
    lemma_python_pin();
    if reqs == Map::<Seq<char>, Seq<char>>::empty() {
        assert(reqs.dom().len() == 0);
    }
    if models == Map::<Seq<char>, Seq<char>>::empty() {
        assert(models.dom().len() == 0);
    }
}

proof fn lemma_python_pin()
    ensures
        names::at(pins::pins_now(), "python"@) == Some(pins::PYTHON_URL@),
{
    reveal_strlit("python");
    reveal_strlit("silentcipher");
    reveal_strlit("dacvae");
    reveal_strlit("irodori_tts");
    assert("python"@.len() == 6 && "dacvae"@.len() == 6);
    assert("python"@[0] == 'p' && "dacvae"@[0] == 'd');
    assert("silentcipher"@.len() == 12 && "irodori_tts"@.len() == 11);
}

/// The engine is there only where each of the packages that it is made of is.
pub proof fn every_package_is_needed(s: SiteListing, name: Seq<char>)
    requires
        name == "torch"@ || name == "fastapi"@ || name == "uvicorn"@ || name == "huggingface_hub"@
            || name == "irodori_tts"@,
        !is_there(s, name),
    ensures
        !all_there(s),
{
}

/// A package is there by its directory, by its module file or by its metadata; each of
/// these is enough.
pub proof fn a_package_is_there_by_any_sign(s: SiteListing, name: Seq<char>, i: int)
    ensures
        0 <= i < s.dirs@.len() && s.dirs@[i]@ == name ==> is_there(s, name),
        0 <= i < s.files@.len() && s.files@[i]@ == name + ".py"@ ==> is_there(s, name),
        0 <= i < s.entries@.len() && (name + "-"@).is_prefix_of(s.entries@[i]@)
            && ".dist-info"@.is_suffix_of(s.entries@[i]@) ==> is_there(s, name),
        s.dirs@.len() == 0 && s.files@.len() == 0 && s.entries@.len() == 0 ==> !is_there(s, name),
{
    if 0 <= i < s.dirs@.len() {
        assert(text::texts(s.dirs@)[i] == s.dirs@[i]@);
    }
    if 0 <= i < s.files@.len() {
        assert(text::texts(s.files@)[i] == s.files@[i]@);
    }
    if 0 <= i < s.entries@.len() {
        assert(is_dist_info(s.entries@[i]@, name) || !is_dist_info(s.entries@[i]@, name));
    }
}

} // verus!
