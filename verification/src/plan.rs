//! What an update installs anew, and in which order: packages first, those of
//! PyTorch before the others; then the pinned sources, in the order in which
//! they depend on each other; then the models.
use vstd::prelude::*;

use crate::pins::{
    current_models, current_requirements, needs_torch_index, updatable_pin, TORCH_CUDA_INDEX_URL,
};
use crate::pins;
use crate::text::{has_name, owned};
use crate::text;

verus! {

/// What an update installs anew.
#[derive(Debug, PartialEq, Eq)]
pub struct UpdatePlan {
    /// The packages that come from the CUDA index of PyTorch, as required.
    pub torch: Vec<String>,
    /// The other packages, as required.
    pub other: Vec<String>,
    /// The pinned sources, in the order in which they are installed.
    pub pins: Vec<&'static str>,
    /// Whether the models are fetched.
    pub models: bool,
    /// The names of everything that is installed anew.
    pub names: Vec<String>,
    /// The names of what cannot be.
    pub skipped: Vec<String>,
}

/// What kind of thing a name is of.
pub enum Kind {
    Pin,
    Model,
    Torch,
    Package,
    Unknown,
}

/// What kind of thing a name is of.
pub open spec fn kind_of(name: Seq<char>) -> Kind {
    if pins::pin_of(name) is Some {
        Kind::Pin
    } else if pins::models_now().contains_key(name) {
        Kind::Model
    } else if pins::requirements_now().contains_key(name) {
        if pins::is_torch(name) {
            Kind::Torch
        } else {
            Kind::Package
        }
    } else {
        Kind::Unknown
    }
}

/// Those of the first `n` names that are of the given kind.
pub open spec fn of_kind(s: Seq<Seq<char>>, k: Kind, n: int) -> Seq<Seq<char>>
    decreases n,
{
    if n <= 0 {
        Seq::empty()
    } else if kind_of(s[n - 1]) == k {
        of_kind(s, k, n - 1).push(s[n - 1])
    } else {
        of_kind(s, k, n - 1)
    }
}

/// Those of the first `n` names that can be installed anew.
pub open spec fn known(s: Seq<Seq<char>>, n: int) -> Seq<Seq<char>>
    decreases n,
{
    if n <= 0 {
        Seq::empty()
    } else if kind_of(s[n - 1]) != Kind::Unknown {
        known(s, n - 1).push(s[n - 1])
    } else {
        known(s, n - 1)
    }
}

/// What is required under each of the names.
pub open spec fn required(s: Seq<Seq<char>>) -> Seq<Seq<char>> {
    Seq::new(s.len(), |i: int| pins::requirements_now()[s[i]])
}

/// The pinned sources in the order in which they are installed.
pub open spec fn pin_order() -> Seq<Seq<char>> {
    seq!["silentcipher"@, "dacvae"@, "irodori_tts"@]
}

/// Those of the first `n` pinned sources that are among the names.
pub open spec fn pins_in_order(s: Seq<Seq<char>>, n: int) -> Seq<Seq<char>>
    decreases n,
{
    if n <= 0 {
        Seq::empty()
    } else if s.contains(pin_order()[n - 1]) {
        pins_in_order(s, n - 1).push(pin_order()[n - 1])
    } else {
        pins_in_order(s, n - 1)
    }
}

impl UpdatePlan {
    /// The update changes packages.
    pub open spec fn changes_packages(self) -> bool {
        self.torch@.len() > 0 || self.other@.len() > 0 || self.pins@.len() > 0
    }

    /// Whether the update changes packages, so that their versions have to be
    /// noted first.
    pub fn touches_packages(&self) -> (r: bool)
        ensures
            r == self.changes_packages(),
    {
        self.torch.len() > 0 || self.other.len() > 0 || self.pins.len() > 0
    }
}

/// The pinned sources among the names, in the order in which they are installed.
fn ordered_pins(outdated: &Vec<String>) -> (r: Vec<&'static str>)
    ensures
        text::str_texts(r@) == pins_in_order(text::texts(outdated@), 3),
{
    let order: Vec<&'static str> = vec!["silentcipher", "dacvae", "irodori_tts"];
    let ghost s = text::texts(outdated@);
    let mut out: Vec<&'static str> = Vec::new();
    let mut i: usize = 0;
    assert(text::str_texts(order@) =~= pin_order());
    assert(text::str_texts(out@) =~= Seq::<Seq<char>>::empty());
    while i < order.len()
        invariant
            i <= order@.len(),
            order@.len() == 3,
            s == text::texts(outdated@),
            text::str_texts(order@) == pin_order(),
            text::str_texts(out@) == pins_in_order(s, i as int),
        decreases order@.len() - i,
    {
        let ghost prior = text::str_texts(out@);
        assert(text::str_texts(order@)[i as int] == order@[i as int]@);
        if has_name(outdated, order[i]) {
            out.push(order[i]);
            assert(text::str_texts(out@) =~= prior.push(pin_order()[i as int]));
        }
        i += 1;
    }
    out
}

proof fn lemma_known_if_any(s: Seq<Seq<char>>, n: int)
    requires
        0 <= n <= s.len(),
    ensures
        of_kind(s, Kind::Torch, n).len() > 0 ==> known(s, n).len() > 0,
        of_kind(s, Kind::Package, n).len() > 0 ==> known(s, n).len() > 0,
        of_kind(s, Kind::Model, n).len() > 0 ==> known(s, n).len() > 0,
        forall|i: int|
            0 <= i < n && kind_of(#[trigger] s[i]) != Kind::Unknown ==> known(s, n).len() > 0,
    decreases n,
{
    if n > 0 {
        lemma_known_if_any(s, n - 1);
    }
}

proof fn lemma_pins_known(s: Seq<Seq<char>>, n: int)
    requires
        0 <= n <= 3,
    ensures
        pins_in_order(s, n).len() > 0 ==> known(s, s.len() as int).len() > 0,
    decreases n,
{
    if n > 0 {
        lemma_pins_known(s, n - 1);
        let name = pin_order()[n - 1];
        if s.contains(name) {
            let i = choose|i: int| 0 <= i < s.len() && s[i] == name;
            assert(kind_of(s[i]) == Kind::Pin);
            lemma_known_if_any(s, s.len() as int);
        }
    }
}

/// Plans an update of the given names. A plan that changes anything names what it
/// changes.
pub fn update_plan(outdated: &Vec<String>) -> (r: UpdatePlan)
    ensures
        ({
            let s = text::texts(outdated@);
            let n = s.len() as int;
            &&& text::texts(r.torch@) == required(of_kind(s, Kind::Torch, n))
            &&& text::texts(r.other@) == required(of_kind(s, Kind::Package, n))
            &&& text::str_texts(r.pins@) == pins_in_order(s, 3)
            &&& r.models == (of_kind(s, Kind::Model, n).len() > 0)
            &&& text::texts(r.names@) == known(s, n)
            &&& text::texts(r.skipped@) == of_kind(s, Kind::Unknown, n)
        }),
        r.changes_packages() || r.models ==> r.names@.len() > 0,
{
    let requirements = current_requirements();
    let models = current_models();
    let ghost s = text::texts(outdated@);
    let mut torch: Vec<String> = Vec::new();
    let mut other: Vec<String> = Vec::new();
    let mut fetch = false;
    let mut known_names: Vec<String> = Vec::new();
    let mut skipped: Vec<String> = Vec::new();
    let mut i: usize = 0;
    assert(text::texts(torch@) =~= required(of_kind(s, Kind::Torch, 0)));
    assert(text::texts(other@) =~= required(of_kind(s, Kind::Package, 0)));
    assert(text::texts(known_names@) =~= Seq::<Seq<char>>::empty());
    assert(text::texts(skipped@) =~= Seq::<Seq<char>>::empty());
    while i < outdated.len()
        invariant
            i <= outdated@.len(),
            s == text::texts(outdated@),
            requirements.wf(),
            models.wf(),
            requirements@ == pins::requirements_now(),
            models@ == pins::models_now(),
            text::texts(torch@) == required(of_kind(s, Kind::Torch, i as int)),
            text::texts(other@) == required(of_kind(s, Kind::Package, i as int)),
            fetch == (of_kind(s, Kind::Model, i as int).len() > 0),
            text::texts(known_names@) == known(s, i as int),
            text::texts(skipped@) == of_kind(s, Kind::Unknown, i as int),
        decreases outdated@.len() - i,
    {
        let name = outdated[i].as_str();
        assert(s[i as int] == name@);
        let ghost t = text::texts(torch@);
        let ghost o = text::texts(other@);
        let ghost k = text::texts(known_names@);
        let ghost u = text::texts(skipped@);
        if updatable_pin(name).is_some() {
            known_names.push(owned(name));
            assert(text::texts(known_names@) =~= k.push(name@));
        } else if models.contains_key(name) {
            fetch = true;
            known_names.push(owned(name));
            assert(text::texts(known_names@) =~= k.push(name@));
        } else {
            match requirements.get(name) {
                Some(spec) => {
                    if needs_torch_index(name) {
                        torch.push(owned(spec.as_str()));
                        assert(text::texts(torch@) =~= t.push(spec@));
                        assert(text::texts(torch@) =~= required(
                            of_kind(s, Kind::Torch, i + 1),
                        ));
                    } else {
                        other.push(owned(spec.as_str()));
                        assert(text::texts(other@) =~= o.push(spec@));
                        assert(text::texts(other@) =~= required(
                            of_kind(s, Kind::Package, i + 1),
                        ));
                    }
                    known_names.push(owned(name));
                    assert(text::texts(known_names@) =~= k.push(name@));
                },
                None => {
                    skipped.push(owned(name));
                    assert(text::texts(skipped@) =~= u.push(name@));
                },
            }
        }
        i += 1;
    }
    let pins = ordered_pins(outdated);
    proof {
        lemma_known_if_any(s, s.len() as int);
        lemma_pins_known(s, 3);
        assert(text::texts(torch@).len() == torch@.len());
        assert(text::texts(other@).len() == other@.len());
        assert(text::str_texts(pins@).len() == pins@.len());
        assert(text::texts(known_names@).len() == known_names@.len());
    }
    UpdatePlan {
        torch,
        other,
        pins,
        models: fetch,
        names: known_names,
        skipped,
    }
}

/// Appends copies.
fn extend_copies(out: &mut Vec<String>, more: &Vec<String>)
    ensures
        text::texts(final(out)@) == text::texts(old(out)@) + text::texts(more@),
{
    let ghost before = out@;
    let mut copies = text::copy_names(more);
    let ghost c = copies@;
    out.append(&mut copies);
    assert(out@ == before + c);
    assert(text::texts(out@) =~= text::texts(before) + text::texts(c));
}

/// The arguments that install PyTorch anew.
pub fn torch_args(torch: &Vec<String>) -> (r: Vec<String>)
    ensures
        text::texts(r@) == seq!["--upgrade"@, "--index-url"@, TORCH_CUDA_INDEX_URL@] + text::texts(
            torch@,
        ),
{
    let mut out: Vec<String> = Vec::new();
    out.push(owned("--upgrade"));
    out.push(owned("--index-url"));
    out.push(owned(TORCH_CUDA_INDEX_URL));
    assert(text::texts(out@) =~= seq!["--upgrade"@, "--index-url"@, TORCH_CUDA_INDEX_URL@]);
    extend_copies(&mut out, torch);
    out
}

/// The arguments that install the other packages anew, under the constraints
/// of the given file where there is one.
pub fn other_args(other: &Vec<String>, constraints: Option<&str>) -> (r: Vec<String>)
    ensures
        text::texts(r@) == (match constraints {
            Some(path) => seq!["--upgrade"@, "-c"@, path@],
            None => seq!["--upgrade"@],
        }) + text::texts(other@),
{
    let mut out: Vec<String> = Vec::new();
    out.push(owned("--upgrade"));
    match constraints {
        Some(path) => {
            out.push(owned("-c"));
            out.push(owned(path));
            assert(text::texts(out@) =~= seq!["--upgrade"@, "-c"@, path@]);
        },
        None => {
            assert(text::texts(out@) =~= seq!["--upgrade"@]);
        },
    }
    extend_copies(&mut out, other);
    out
}

/// The arguments that install a pinned source anew.
pub fn pin_args(url: &str) -> (r: Vec<String>)
    ensures
        text::texts(r@) == seq!["--no-deps"@, "--force-reinstall"@, url@],
{
    let mut out: Vec<String> = Vec::new();
    out.push(owned("--no-deps"));
    out.push(owned("--force-reinstall"));
    out.push(owned(url));
    assert(text::texts(out@) =~= seq!["--no-deps"@, "--force-reinstall"@, url@]);
    out
}

/// The arguments that bring packages back to the versions that they had,
/// without what they depend on.
pub fn restore_args(specs: &Vec<String>, torch: bool) -> (r: Vec<String>)
    ensures
        text::texts(r@) == (if torch {
            seq!["--no-deps"@, "--force-reinstall"@, "--index-url"@, TORCH_CUDA_INDEX_URL@]
        } else {
            seq!["--no-deps"@, "--force-reinstall"@]
        }) + text::texts(specs@),
{
    let mut out: Vec<String> = Vec::new();
    out.push(owned("--no-deps"));
    out.push(owned("--force-reinstall"));
    if torch {
        out.push(owned("--index-url"));
        out.push(owned(TORCH_CUDA_INDEX_URL));
        assert(text::texts(out@) =~= seq![
            "--no-deps"@,
            "--force-reinstall"@,
            "--index-url"@,
            TORCH_CUDA_INDEX_URL@,
        ]);
    } else {
        assert(text::texts(out@) =~= seq!["--no-deps"@, "--force-reinstall"@]);
    }
    extend_copies(&mut out, specs);
    out
}

proof fn lemma_of_kind(s: Seq<Seq<char>>, k: Kind, n: int, x: Seq<char>)
    requires
        0 <= n <= s.len(),
    ensures
        of_kind(s, k, n).contains(x) <==> s.take(n).contains(x) && kind_of(x) == k,
    decreases n,
{
    if n > 0 {
        lemma_of_kind(s, k, n - 1, x);
        lemma_push_contains(s.take(n - 1), s[n - 1], x);
        assert(s.take(n) =~= s.take(n - 1).push(s[n - 1]));
        lemma_push_contains(of_kind(s, k, n - 1), s[n - 1], x);
    }
}

proof fn lemma_known(s: Seq<Seq<char>>, n: int, x: Seq<char>)
    requires
        0 <= n <= s.len(),
    ensures
        known(s, n).contains(x) <==> s.take(n).contains(x) && kind_of(x) != Kind::Unknown,
    decreases n,
{
    if n > 0 {
        lemma_known(s, n - 1, x);
        lemma_push_contains(s.take(n - 1), s[n - 1], x);
        assert(s.take(n) =~= s.take(n - 1).push(s[n - 1]));
        lemma_push_contains(known(s, n - 1), s[n - 1], x);
    }
}

proof fn lemma_push_contains(s: Seq<Seq<char>>, y: Seq<char>, x: Seq<char>)
    ensures
        s.push(y).contains(x) <==> s.contains(x) || x == y,
{
    if s.contains(x) {
        let i = choose|i: int| 0 <= i < s.len() && s[i] == x;
        assert(s.push(y)[i] == x);
    }
    if x == y {
        assert(s.push(y)[s.len() as int] == x);
    }
    if s.push(y).contains(x) && x != y {
        let i = choose|i: int| 0 <= i < s.push(y).len() && s.push(y)[i] == x;
        assert(s[i] == x);
    }
}

/// Every name that is out of date is planned for exactly once: it is either
/// installed anew or named as one that cannot be, and what it is installed as
/// is what kind of thing it is.
pub proof fn plan_covers_every_name(s: Seq<Seq<char>>, x: Seq<char>)
    requires
        s.contains(x),
    ensures
        known(s, s.len() as int).contains(x) <==> !of_kind(
            s,
            Kind::Unknown,
            s.len() as int,
        ).contains(x),
        known(s, s.len() as int).contains(x) <==> (of_kind(s, Kind::Pin, s.len() as int).contains(x)
            || of_kind(s, Kind::Model, s.len() as int).contains(x) || of_kind(
            s,
            Kind::Torch,
            s.len() as int,
        ).contains(x) || of_kind(s, Kind::Package, s.len() as int).contains(x)),
{
    let n = s.len() as int;
    assert(s.take(n) =~= s);
    lemma_known(s, n, x);
    lemma_of_kind(s, Kind::Unknown, n, x);
    lemma_of_kind(s, Kind::Pin, n, x);
    lemma_of_kind(s, Kind::Model, n, x);
    lemma_of_kind(s, Kind::Torch, n, x);
    lemma_of_kind(s, Kind::Package, n, x);
}

proof fn lemma_filtered(s: Seq<Seq<char>>, k: Kind, n: int)
    requires
        0 <= n <= s.len(),
    ensures
        of_kind(s, k, n) == s.take(n).filter(|x: Seq<char>| kind_of(x) == k),
        known(s, n) == s.take(n).filter(|x: Seq<char>| kind_of(x) != Kind::Unknown),
    decreases n,
{
    reveal(Seq::filter);
    if n > 0 {
        lemma_filtered(s, k, n - 1);
        assert(s.take(n).drop_last() =~= s.take(n - 1));
    }
}

/// A plan leaves nothing out: of the names that are out of date, those of each kind
/// are all there, in their order and as often as they were given; the names of
/// everything that is installed are all that are known.
pub proof fn a_plan_leaves_nothing_out(s: Seq<Seq<char>>, k: Kind)
    ensures
        of_kind(s, k, s.len() as int) == s.filter(|x: Seq<char>| kind_of(x) == k),
        known(s, s.len() as int) == s.filter(|x: Seq<char>| kind_of(x) != Kind::Unknown),
{
    lemma_filtered(s, k, s.len() as int);
    assert(s.take(s.len() as int) =~= s);
}

/// The pinned sources that are out of date are all installed, each once, and a source
/// before those that need it: silentcipher, dacvae, irodori_tts.
pub proof fn pins_come_in_their_order(s: Seq<Seq<char>>)
    ensures
        pins_in_order(s, 3) == seq!["silentcipher"@, "dacvae"@, "irodori_tts"@].filter(
            |p: Seq<char>| s.contains(p),
        ),
{
    reveal(Seq::filter);
    reveal_with_fuel(pins_in_order, 4);
    let o = seq!["silentcipher"@, "dacvae"@, "irodori_tts"@];
    let f = |p: Seq<char>| s.contains(p);
    reveal_with_fuel(Seq::filter, 4);
    assert(o.drop_last() =~= seq!["silentcipher"@, "dacvae"@]);
    assert(o.drop_last().drop_last() =~= seq!["silentcipher"@]);
    assert(o.drop_last().drop_last().drop_last() =~= Seq::<Seq<char>>::empty());
    assert(pins_in_order(s, 3) =~= o.filter(f));
}

/// Whatever can be out of date, but for Python itself, can be installed anew.
pub proof fn what_is_out_of_date_can_be_installed(
    recorded: Map<Seq<char>, Seq<char>>,
    reqs: Map<Seq<char>, Seq<char>>,
    models: Map<Seq<char>, Seq<char>>,
    python: Option<Seq<char>>,
    k: Seq<char>,
)
    requires
        k != "python"@,
        crate::status::is_outdated_now(recorded, reqs, models, python, k),
    ensures
        kind_of(k) != Kind::Unknown,
{
}

/// Each name is asked for as it is required now: by a requirement of that name.
pub proof fn names_are_asked_for_as_required(s: Seq<Seq<char>>, i: int)
    requires
        0 <= i < s.len(),
        pins::requirements_now().contains_key(s[i]),
    ensures
        required(s).len() == s.len(),
        pins::req_name(required(s)[i]) == s[i],
        pins::all_specs().contains(required(s)[i]),
{
    pins::requirements_stand_under_their_names(pins::all_specs(), pins::all_specs().len() as int, 0);
}

/// The pinned sources are these three; what is neither among them nor a model is a
/// package where one is required by that name, of PyTorch where it needs its index.
pub proof fn every_name_has_its_kind(x: Seq<char>)
    ensures
        kind_of(x) == Kind::Pin <==> x == "silentcipher"@ || x == "dacvae"@ || x == "irodori_tts"@,
        kind_of(x) == Kind::Torch ==> pins::requirements_now().contains_key(x) && pins::is_torch(x),
        kind_of(x) == Kind::Package ==> pins::requirements_now().contains_key(x) && !pins::is_torch(
            x,
        ),
        kind_of(x) == Kind::Model ==> pins::models_now().contains_key(x),
        kind_of(x) == Kind::Unknown ==> !pins::requirements_now().contains_key(x)
            && !pins::models_now().contains_key(x),
{
}

} // verus!
