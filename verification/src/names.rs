//! Tables from names to texts, kept in the order of the names.
use vstd::prelude::*;

use crate::text::{comes_before, owned, same};
use crate::text;

verus! {

/// Names in strictly ascending order.
pub open spec fn ascending(s: Seq<Seq<char>>) -> bool {
    forall|i: int, j: int| 0 <= i < j < s.len() ==> text::precedes(#[trigger] s[i], #[trigger] s[j])
}

/// The names of pairs.
pub open spec fn first_of(p: Seq<(Seq<char>, Seq<char>)>) -> Seq<Seq<char>> {
    Seq::new(p.len(), |i: int| p[i].0)
}

/// The table that pairs make up.
pub open spec fn table_of(p: Seq<(Seq<char>, Seq<char>)>) -> Map<Seq<char>, Seq<char>> {
    Map::new(
        |k: Seq<char>| first_of(p).contains(k),
        |k: Seq<char>| p[choose|i: int| 0 <= i < p.len() && #[trigger] first_of(p)[i] == k].1,
    )
}

/// What stands in a table under a name.
pub open spec fn at(m: Map<Seq<char>, Seq<char>>, k: Seq<char>) -> Option<Seq<char>> {
    if m.contains_key(k) {
        Some(m[k])
    } else {
        None
    }
}

/// In ascending order a name stands at one place only.
pub proof fn lemma_ascending_distinct(s: Seq<Seq<char>>, i: int, j: int)
    requires
        ascending(s),
        0 <= i < s.len(),
        0 <= j < s.len(),
        s[i] == s[j],
    ensures
        i == j,
{
    text::lemma_precedes_irreflexive(s[i]);
    if i < j {
        assert(text::precedes(s[i], s[j]));
    } else if j < i {
        assert(text::precedes(s[j], s[i]));
    }
}

/// Two ascending sequences with the same names are the same.
pub proof fn ascending_is_unique(a: Seq<Seq<char>>, b: Seq<Seq<char>>)
    requires
        ascending(a),
        ascending(b),
        forall|k: Seq<char>| a.contains(k) <==> b.contains(k),
    ensures
        a == b,
    decreases a.len(),
{
    if a.len() == 0 {
        if b.len() > 0 {
            assert(b.contains(b[0]));
        }
        assert(a =~= b);
    } else {
        assert(a.contains(a[a.len() - 1]));
        let i = choose|i: int| 0 <= i < b.len() && b[i] == a[a.len() - 1];
        assert(b.contains(b[b.len() - 1]));
        let j = choose|j: int| 0 <= j < a.len() && a[j] == b[b.len() - 1];
        if i < b.len() - 1 {
            assert(text::precedes(b[i], b[b.len() - 1]));
            if j < a.len() - 1 {
                assert(text::precedes(a[j], a[a.len() - 1]));
                text::lemma_precedes_transitive(b[i], b[b.len() - 1], b[i]);
            }
            text::lemma_precedes_irreflexive(b[i]);
        }
        assert(a.last() == b.last());
        let a2 = a.drop_last();
        let b2 = b.drop_last();
        assert forall|k: Seq<char>| a2.contains(k) <==> b2.contains(k) by {
            if a2.contains(k) {
                let m = choose|m: int| 0 <= m < a2.len() && a2[m] == k;
                assert(a[m] == k);
                assert(a.contains(k));
                let n = choose|n: int| 0 <= n < b.len() && b[n] == k;
                if n == b.len() - 1 {
                    lemma_ascending_distinct(a, m, a.len() - 1);
                }
                assert(b2[n] == k);
            }
            if b2.contains(k) {
                let m = choose|m: int| 0 <= m < b2.len() && b2[m] == k;
                assert(b[m] == k);
                assert(b.contains(k));
                let n = choose|n: int| 0 <= n < a.len() && a[n] == k;
                if n == a.len() - 1 {
                    lemma_ascending_distinct(b, m, b.len() - 1);
                }
                assert(a2[n] == k);
            }
        }
        ascending_is_unique(a2, b2);
        assert(a =~= a2.push(a.last()));
        assert(b =~= b2.push(b.last()));
    }
}

proof fn lemma_table_at(p: Seq<(Seq<char>, Seq<char>)>, i: int)
    requires
        ascending(first_of(p)),
        0 <= i < p.len(),
    ensures
        table_of(p).contains_key(p[i].0),
        table_of(p)[p[i].0] == p[i].1,
{
    let s = first_of(p);
    assert(s[i] == p[i].0);
    assert(s.contains(p[i].0));
    let j = choose|j: int| 0 <= j < p.len() && #[trigger] s[j] == p[i].0;
    lemma_ascending_distinct(s, i, j);
}

/// Where a name belongs: behind every name that comes before it.
pub open spec fn is_place(s: Seq<Seq<char>>, k: Seq<char>, i: int) -> bool {
    &&& 0 <= i <= s.len()
    &&& forall|j: int| 0 <= j < i ==> text::precedes(#[trigger] s[j], k)
    &&& i < s.len() ==> !text::precedes(s[i], k)
}

proof fn lemma_place(s: Seq<Seq<char>>, k: Seq<char>, i: int)
    requires
        ascending(s),
        is_place(s, k, i),
    ensures
        s.contains(k) <==> i < s.len() && s[i] == k,
        !s.contains(k) ==> ascending(s.insert(i, k)),
{
    if s.contains(k) {
        let j = choose|j: int| 0 <= j < s.len() && s[j] == k;
        text::lemma_precedes_irreflexive(k);
        if i < j {
            text::lemma_precedes_total(s[i], k);
            assert(text::precedes(s[i], s[j]));
        }
        assert(i == j);
    } else {
        let t = s.insert(i, k);
        assert forall|a: int, b: int| 0 <= a < b < t.len() implies text::precedes(
            #[trigger] t[a],
            #[trigger] t[b],
        ) by {
            let sa = if a < i {
                a
            } else {
                a - 1
            };
            let sb = if b < i {
                b
            } else {
                b - 1
            };
            if a != i {
                assert(t[a] == s[sa]);
            }
            if b != i {
                assert(t[b] == s[sb]);
            }
            if a == i {
                assert(!text::precedes(s[i], k));
                text::lemma_precedes_total(s[i], k);
                assert(s[i] != k) by {
                    if s[i] == k {
                        assert(s.contains(k));
                    }
                }
                if sb > i {
                    assert(text::precedes(s[i], s[sb]));
                    text::lemma_precedes_transitive(k, s[i], s[sb]);
                }
            } else if b == i {
                assert(text::precedes(s[sa], k));
            } else {
                assert(text::precedes(s[sa], s[sb]));
            }
        }
    }
}

/// Adds a name to names in ascending order, unless it is there.
pub fn insert_name(v: &mut Vec<String>, name: &str)
    requires
        ascending(text::texts(old(v)@)),
    ensures
        ascending(text::texts(final(v)@)),
        forall|k: Seq<char>|
            #[trigger] text::texts(final(v)@).contains(k) <==> text::texts(old(v)@).contains(k) || k == name@,
{
    let ghost s = text::texts(v@);
    let mut i: usize = 0;
    while i < v.len() && comes_before(v[i].as_str(), name)
        invariant
            i <= v@.len(),
            s == text::texts(v@),
            forall|j: int| 0 <= j < i ==> text::precedes(#[trigger] s[j], name@),
        decreases v@.len() - i,
    {
        assert(s[i as int] == v@[i as int]@);
        i += 1;
    }
    proof {
        if i < v@.len() {
            assert(s[i as int] == v@[i as int]@);
        }
        lemma_place(s, name@, i as int);
    }
    if i < v.len() && same(v[i].as_str(), name) {
        return;
    }
    v.insert(i, owned(name));
    proof {
        let t = text::texts(v@);
        assert(t =~= s.insert(i as int, name@));
        assert forall|k: Seq<char>| t.contains(k) <==> s.contains(k) || k == name@ by {
            if s.contains(k) {
                let j = choose|j: int| 0 <= j < s.len() && s[j] == k;
                if j < i {
                    assert(t[j] == k);
                } else {
                    assert(t[j + 1] == k);
                }
            }
            if k == name@ {
                assert(t[i as int] == k);
            }
            if t.contains(k) && k != name@ {
                let j = choose|j: int| 0 <= j < t.len() && t[j] == k;
                if j < i {
                    assert(s[j] == k);
                } else {
                    assert(s[j - 1] == k);
                }
            }
        }
    }
}

/// The names of a table, in ascending order.
pub open spec fn is_names_of(s: Seq<Seq<char>>, m: Map<Seq<char>, Seq<char>>) -> bool {
    ascending(s) && forall|k: Seq<char>| s.contains(k) <==> m.contains_key(k)
}

/// The names of a table, in ascending order.
pub open spec fn sorted_names(m: Map<Seq<char>, Seq<char>>) -> Seq<Seq<char>> {
    choose|s: Seq<Seq<char>>| is_names_of(s, m)
}

/// A table's names in ascending order are its sorted names.
pub proof fn lemma_sorted_names(s: Seq<Seq<char>>, m: Map<Seq<char>, Seq<char>>)
    requires
        is_names_of(s, m),
    ensures
        s == sorted_names(m),
{
    let t = sorted_names(m);
    assert(is_names_of(t, m));
    assert forall|k: Seq<char>| s.contains(k) <==> t.contains(k) by {
        assert(s.contains(k) <==> m.contains_key(k));
        assert(t.contains(k) <==> m.contains_key(k));
    }
    ascending_is_unique(s, t);
}

/// The table with the current entries of the given names in place of what
/// stood under them; a name that has no current entry changes nothing.
pub open spec fn merged(
    recorded: Map<Seq<char>, Seq<char>>,
    current: Map<Seq<char>, Seq<char>>,
    names: Seq<Seq<char>>,
) -> Map<Seq<char>, Seq<char>> {
    Map::new(
        |k: Seq<char>|
            recorded.contains_key(k) || (names.contains(k) && current.contains_key(k)),
        |k: Seq<char>|
            if names.contains(k) && current.contains_key(k) {
                current[k]
            } else {
                recorded[k]
            },
    )
}

/// Puts the current entries of the given names into a copy of a table.
pub fn merge_named(recorded: &NameMap, current: &NameMap, names: &Vec<String>) -> (r: NameMap)
    requires
        recorded.wf(),
        current.wf(),
    ensures
        r.wf(),
        r@ == merged(recorded@, current@, text::texts(names@)),
{
    let ghost n = text::texts(names@);
    let mut out = recorded.copy();
    let mut i: usize = 0;
    assert(out@ =~= merged(recorded@, current@, n.take(0)));
    while i < names.len()
        invariant
            i <= names@.len(),
            n == text::texts(names@),
            out.wf(),
            current.wf(),
            out@ == merged(recorded@, current@, n.take(i as int)),
        decreases names@.len() - i,
    {
        let ghost before = out@;
        let ghost a = n.take(i as int);
        let ghost b = n.take(i + 1);
        assert(n[i as int] == names@[i as int]@);
        proof {
            assert(b =~= a.push(n[i as int]));
            assert forall|k: Seq<char>| #[trigger] b.contains(k) <==> a.contains(k) || k
                == n[i as int] by {
                if a.contains(k) {
                    let j = choose|j: int| 0 <= j < a.len() && a[j] == k;
                    assert(b[j] == k);
                }
                if k == n[i as int] {
                    assert(b[i as int] == k);
                }
                if b.contains(k) && k != n[i as int] {
                    let j = choose|j: int| 0 <= j < b.len() && b[j] == k;
                    assert(a[j] == k);
                }
            }
        }
        match current.get(names[i].as_str()) {
            Some(v) => {
                out.insert(names[i].as_str(), v.as_str());
            },
            None => {},
        }
        assert(out@ =~= merged(recorded@, current@, b));
        i += 1;
    }
    assert(n.take(i as int) =~= n);
    out
}

/// A table from names to texts.
#[derive(Debug, PartialEq, Eq)]
pub struct NameMap {
    entries: Vec<(String, String)>,
}

impl View for NameMap {
    type V = Map<Seq<char>, Seq<char>>;

    closed spec fn view(&self) -> Map<Seq<char>, Seq<char>> {
        table_of(self.pairs())
    }
}

impl NameMap {
    /// The entries in their order.
    pub closed spec fn pairs(self) -> Seq<(Seq<char>, Seq<char>)> {
        Seq::new(self.entries@.len(), |i: int| (self.entries@[i].0@, self.entries@[i].1@))
    }

    /// The entries stand in the order of their names, each name once.
    pub closed spec fn wf(self) -> bool {
        ascending(first_of(self.pairs()))
    }

    /// An empty table.
    pub fn new() -> (r: Self)
        ensures
            r.wf(),
            r@ == Map::<Seq<char>, Seq<char>>::empty(),
    {
        let r = NameMap { entries: Vec::new() };
        assert(r@ =~= Map::<Seq<char>, Seq<char>>::empty());
        r
    }

    /// The number of entries.
    pub fn len(&self) -> (r: usize)
        requires
            self.wf(),
        ensures
            r == self@.dom().len(),
            self@.dom().finite(),
            r == 0 <==> self@ == Map::<Seq<char>, Seq<char>>::empty(),
    {
        proof {
            self.lemma_dom();
        }
        self.entries.len()
    }

    proof fn lemma_dom(&self)
        requires
            self.wf(),
        ensures
            self@.dom().finite(),
            self@.dom().len() == self.entries@.len(),
            self.entries@.len() == 0 <==> self@ == Map::<Seq<char>, Seq<char>>::empty(),
    {
        let s = first_of(self.pairs());
        assert(s.no_duplicates()) by {
            assert forall|i: int, j: int| 0 <= i < s.len() && 0 <= j < s.len() && i != j implies s[i]
                != s[j] by {
                if s[i] == s[j] {
                    lemma_ascending_distinct(s, i, j);
                }
            }
        }
        s.unique_seq_to_set();
        assert(s.to_set() =~= self@.dom());
        if self.entries@.len() > 0 {
            assert(self@.contains_key(s[0]));
        } else {
            assert(self@ =~= Map::<Seq<char>, Seq<char>>::empty());
        }
    }

    /// Whether the table has no entry.
    pub fn is_empty(&self) -> (r: bool)
        requires
            self.wf(),
        ensures
            r == (self@ == Map::<Seq<char>, Seq<char>>::empty()),
    {
        proof {
            self.lemma_dom();
        }
        self.entries.len() == 0
    }

    /// Where a name is or belongs.
    fn place(&self, name: &str) -> (i: usize)
        requires
            self.wf(),
        ensures
            is_place(first_of(self.pairs()), name@, i as int),
            i <= self.entries@.len(),
    {
        let ghost s = first_of(self.pairs());
        let mut i: usize = 0;
        while i < self.entries.len() && comes_before(self.entries[i].0.as_str(), name)
            invariant
                i <= self.entries@.len(),
                s == first_of(self.pairs()),
                forall|j: int| 0 <= j < i ==> text::precedes(#[trigger] s[j], name@),
            decreases self.entries@.len() - i,
        {
            assert(s[i as int] == self.entries@[i as int].0@);
            i += 1;
        }
        proof {
            if i < self.entries@.len() {
                assert(s[i as int] == self.entries@[i as int].0@);
            }
        }
        i
    }

    /// What stands under a name.
    pub fn get(&self, name: &str) -> (r: Option<&String>)
        requires
            self.wf(),
        ensures
            (match r {
                Some(v) => Some(v@),
                None => None,
            }) == at(self@, name@),
    {
        let ghost s = first_of(self.pairs());
        let i = self.place(name);
        proof {
            lemma_place(s, name@, i as int);
            if i < self.entries@.len() {
                assert(s[i as int] == self.entries@[i as int].0@);
            }
        }
        if i < self.entries.len() && same(self.entries[i].0.as_str(), name) {
            proof {
                lemma_table_at(self.pairs(), i as int);
            }
            return Some(&self.entries[i].1);
        }
        None
    }

    /// Whether there is an entry of that name.
    pub fn contains_key(&self, name: &str) -> (r: bool)
        requires
            self.wf(),
        ensures
            r == self@.contains_key(name@),
    {
        self.get(name).is_some()
    }

    /// Puts a text under a name, in place of what stood there.
    pub fn insert(&mut self, name: &str, value: &str)
        requires
            old(self).wf(),
        ensures
            final(self).wf(),
            final(self)@ == old(self)@.insert(name@, value@),
    {
        let ghost p = self.pairs();
        let ghost s = first_of(p);
        let i = self.place(name);
        proof {
            lemma_place(s, name@, i as int);
            if i < self.entries@.len() {
                assert(s[i as int] == self.entries@[i as int].0@);
            }
        }
        if i < self.entries.len() && same(self.entries[i].0.as_str(), name) {
            self.entries.set(i, (owned(name), owned(value)));
            proof {
                assert(self.pairs() =~= p.update(i as int, (name@, value@)));
                assert(first_of(self.pairs()) =~= s);
            }
        } else {
            self.entries.insert(i, (owned(name), owned(value)));
            proof {
                assert(self.pairs() =~= p.insert(i as int, (name@, value@)));
                assert(first_of(self.pairs()) =~= s.insert(i as int, name@));
            }
        }
        proof {
            let q = self.pairs();
            let t = first_of(q);
            let m = old(self)@.insert(name@, value@);
            assert(q[i as int] == (name@, value@));
            lemma_table_at(q, i as int);
            let grown = !s.contains(name@);
            assert forall|k: Seq<char>| table_of(q).contains_key(k) <==> m.contains_key(k) by {
                if table_of(q).contains_key(k) && k != name@ {
                    let j = choose|j: int| 0 <= j < t.len() && t[j] == k;
                    if !grown || j < i {
                        assert(s[j] == k);
                    } else {
                        assert(s[j - 1] == k);
                    }
                    assert(s.contains(k));
                }
                if m.contains_key(k) && k != name@ {
                    let j = choose|j: int| 0 <= j < s.len() && s[j] == k;
                    if !grown || j < i {
                        assert(t[j] == k);
                    } else {
                        assert(t[j + 1] == k);
                    }
                    assert(t.contains(k));
                }
            }
            assert forall|k: Seq<char>| #[trigger] m.contains_key(k) implies table_of(q)[k] == m[k] by {
                if k != name@ {
                    let j = choose|j: int| 0 <= j < s.len() && s[j] == k;
                    assert(s[j] == p[j].0);
                    lemma_table_at(p, j);
                    let n = if !grown || j < i {
                        j
                    } else {
                        j + 1
                    };
                    assert(q[n] == p[j]);
                    lemma_table_at(q, n);
                }
            }
            assert(table_of(q).dom() =~= m.dom());
            assert(table_of(q) =~= m);
        }
    }

    /// The names, in ascending order.
    pub fn names(&self) -> (r: Vec<String>)
        requires
            self.wf(),
        ensures
            ascending(text::texts(r@)),
            forall|k: Seq<char>| #[trigger] text::texts(r@).contains(k) <==> self@.contains_key(k),
            text::texts(r@) == sorted_names(self@),
    {
        let mut out: Vec<String> = Vec::new();
        let mut i: usize = 0;
        while i < self.entries.len()
            invariant
                i <= self.entries@.len(),
                out@.len() == i,
                forall|j: int| 0 <= j < i ==> (#[trigger] out@[j])@ == self.entries@[j].0@,
            decreases self.entries@.len() - i,
        {
            out.push(owned(self.entries[i].0.as_str()));
            i += 1;
        }
        assert(text::texts(out@) =~= first_of(self.pairs()));
        proof {
            lemma_sorted_names(text::texts(out@), self@);
        }
        out
    }

    /// A copy.
    pub fn copy(&self) -> (r: Self)
        requires
            self.wf(),
        ensures
            r.wf(),
            r@ == self@,
    {
        let mut out: Vec<(String, String)> = Vec::new();
        let mut i: usize = 0;
        while i < self.entries.len()
            invariant
                i <= self.entries@.len(),
                out@.len() == i,
                forall|j: int|
                    0 <= j < i ==> (#[trigger] out@[j]).0@ == self.entries@[j].0@ && out@[j].1@
                        == self.entries@[j].1@,
            decreases self.entries@.len() - i,
        {
            out.push(
                (owned(self.entries[i].0.as_str()), owned(self.entries[i].1.as_str())),
            );
            i += 1;
        }
        let r = NameMap { entries: out };
        assert(r.pairs() =~= self.pairs());
        r
    }

    /// Puts every entry of another table into this one, in place of what stood
    /// under its name.
    pub fn extend(&mut self, other: &NameMap)
        requires
            old(self).wf(),
            other.wf(),
        ensures
            final(self).wf(),
            final(self)@ == old(self)@.union_prefer_right(other@),
    {
        let ghost start = self@;
        let ghost p = other.pairs();
        let mut i: usize = 0;
        while i < other.entries.len()
            invariant
                i <= other.entries@.len(),
                self.wf(),
                other.wf(),
                p == other.pairs(),
                forall|k: Seq<char>| #[trigger]
                    self@.contains_key(k) <==> start.contains_key(k) || first_of(p).take(
                        i as int,
                    ).contains(k),
                forall|j: int| 0 <= j < i ==> self@[(#[trigger] p[j]).0] == p[j].1,
                forall|k: Seq<char>|
                    start.contains_key(k) && !first_of(p).take(i as int).contains(k)
                        ==> #[trigger] self@[k] == start[k],
            decreases other.entries@.len() - i,
        {
            let ghost before = self@;
            let ghost s = first_of(p);
            assert(p[i as int] == (other.entries@[i as int].0@, other.entries@[i as int].1@));
            self.insert(other.entries[i].0.as_str(), other.entries[i].1.as_str());
            proof {
                let n = p[i as int].0;
                assert(s[i as int] == n);
                let a = s.take(i as int);
                let b = s.take(i + 1);
                assert(b =~= a.push(n));
                assert forall|k: Seq<char>| #[trigger] b.contains(k) <==> a.contains(k) || k == n by {
                    if a.contains(k) {
                        let j = choose|j: int| 0 <= j < a.len() && a[j] == k;
                        assert(b[j] == k);
                    }
                    if k == n {
                        assert(b[i as int] == k);
                    }
                    if b.contains(k) && k != n {
                        let j = choose|j: int| 0 <= j < b.len() && b[j] == k;
                        assert(a[j] == k);
                    }
                }
                assert forall|j: int| 0 <= j < i + 1 implies self@[(#[trigger] p[j]).0] == p[j].1 by {
                    if j < i {
                        assert(s[j] == p[j].0);
                        if p[j].0 == n {
                            lemma_ascending_distinct(s, j, i as int);
                        }
                    }
                }
            }
            i += 1;
        }
        proof {
            let s = first_of(p);
            assert(s.take(i as int) =~= s);
            let m = start.union_prefer_right(other@);
            assert forall|k: Seq<char>| #[trigger] m.contains_key(k) implies self@[k] == m[k] by {
                if other@.contains_key(k) {
                    let j = choose|j: int| 0 <= j < s.len() && s[j] == k;
                    assert(p[j].0 == k);
                    lemma_table_at(p, j);
                }
            }
            assert(self@ =~= m);
        }
    }

    /// Whether two tables hold the same.
    pub fn same_as(&self, other: &NameMap) -> (r: bool)
        requires
            self.wf(),
            other.wf(),
        ensures
            r == (self@ == other@),
    {
        proof {
            self.lemma_dom();
            other.lemma_dom();
        }
        if self.entries.len() != other.entries.len() {
            return false;
        }
        let mut i: usize = 0;
        while i < self.entries.len()
            invariant
                i <= self.entries@.len(),
                self.entries@.len() == other.entries@.len(),
                self.wf(),
                other.wf(),
                forall|j: int| 0 <= j < i ==> #[trigger] self.pairs()[j] == other.pairs()[j],
            decreases self.entries@.len() - i,
        {
            if !same(self.entries[i].0.as_str(), other.entries[i].0.as_str()) {
                proof {
                    if self@ == other@ {
                        let a = first_of(self.pairs());
                        let b = first_of(other.pairs());
                        assert forall|k: Seq<char>| a.contains(k) <==> b.contains(k) by {
                            assert(a.contains(k) <==> self@.contains_key(k));
                            assert(b.contains(k) <==> other@.contains_key(k));
                        }
                        ascending_is_unique(a, b);
                        assert(a[i as int] == self.entries@[i as int].0@);
                        assert(b[i as int] == other.entries@[i as int].0@);
                    }
                }
                return false;
            }
            if !same(self.entries[i].1.as_str(), other.entries[i].1.as_str()) {
                proof {
                    lemma_table_at(self.pairs(), i as int);
                    lemma_table_at(other.pairs(), i as int);
                }
                return false;
            }
            assert(self.pairs()[i as int] == other.pairs()[i as int]);
            i += 1;
        }
        assert(self.pairs() =~= other.pairs());
        true
    }
}

} // verus!
