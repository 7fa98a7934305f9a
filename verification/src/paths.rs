//! Places in the file system: a base directory, and the names that lead from
//! it to the place.
use vstd::prelude::*;

use crate::reader::to_ascii_lowercase;
use crate::reader;
use crate::text::{copy_names, owned, same};
use crate::text;

verus! {

/// A place: a base directory, and the names below it.
#[derive(Debug, PartialEq, Eq)]
pub struct AssetPath {
    pub base: String,
    pub parts: Vec<String>,
}

/// What an `AssetPath` says.
pub struct Place {
    pub base: Seq<char>,
    pub parts: Seq<Seq<char>>,
}

impl View for AssetPath {
    type V = Place;

    open spec fn view(&self) -> Place {
        Place { base: self.base@, parts: text::texts(self.parts@) }
    }
}

/// The place of that name below another.
pub open spec fn below(p: Place, name: Seq<char>) -> Place {
    Place { base: p.base, parts: p.parts.push(name) }
}

impl AssetPath {
    /// The base directory itself.
    pub fn new(base: &str) -> (r: Self)
        ensures
            r@ == (Place { base: base@, parts: Seq::empty() }),
    {
        let r = AssetPath { base: owned(base), parts: Vec::new() };
        assert(text::texts(r.parts@) =~= Seq::<Seq<char>>::empty());
        r
    }

    /// The place of that name below this one.
    pub fn join(&self, name: &str) -> (r: Self)
        ensures
            r@ == below(self@, name@),
    {
        let mut parts = copy_names(&self.parts);
        let ghost before = text::texts(parts@);
        parts.push(owned(name));
        assert(text::texts(parts@) =~= before.push(name@));
        AssetPath { base: owned(self.base.as_str()), parts }
    }

    /// The last name, where there is one.
    pub fn file_name(&self) -> (r: Option<String>)
        ensures
            text::opt_text(r) == (if self@.parts.len() == 0 {
                None
            } else {
                Some(self@.parts.last())
            }),
    {
        if self.parts.len() == 0 {
            return None;
        }
        let n: usize = self.parts.len() - 1;
        assert(text::texts(self.parts@)[n as int] == self.parts@[n as int]@);
        Some(owned(self.parts[n].as_str()))
    }
}

/// A directory with these entries has one of that name: the file system does not
/// tell letters by their case.
pub open spec fn holds_entry(entries: Seq<Seq<char>>, name: Seq<char>) -> bool {
    exists|k: int|
        0 <= k < entries.len() && reader::in_ascii_lower(#[trigger] entries[k])
            == reader::in_ascii_lower(name)
}

/// Whether a directory with these entries has one of that name, in whatever case.
pub fn has_entry(entries: &Vec<String>, name: &str) -> (r: bool)
    ensures
        r == holds_entry(text::texts(entries@), name@),
{
    let l = to_ascii_lowercase(name);
    let mut i: usize = 0;
    while i < entries.len()
        invariant
            i <= entries@.len(),
            l@ == reader::in_ascii_lower(name@),
            forall|k: int|
                0 <= k < i ==> reader::in_ascii_lower(#[trigger] text::texts(entries@)[k])
                    != reader::in_ascii_lower(name@),
        decreases entries@.len() - i,
    {
        let e = to_ascii_lowercase(entries[i].as_str());
        assert(text::texts(entries@)[i as int] == entries@[i as int]@);
        if same(e.as_str(), l.as_str()) {
            return true;
        }
        i += 1;
    }
    false
}

} // verus!
